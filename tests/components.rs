use wgpull::challenge::ChallengeResponse;
use wgpull::config::LighthouseConfig;
use wgpull::keys::generate_psk;
use wgpull::messages::{NodeMetricsPushRequest, NodeMetricsPushRequestPeer, NodePullResponse, NodePullResponsePeer};
use wgpull::metrics::LighthouseMetrics;
use wgpull::node::{discover_config_path, BackendType, KeyPair, NodeConfig, NodePeer, NodeState, PeerInfo, WireguardInfo, LOCAL_CONFIG_PATH, SYSTEM_CONFIG_PATH};
use wgpull::peer_pair::PeerPair;
use wgpull::service::{authenticate, handle_metrics_push, LighthouseResponseError};
use wgpull::state::split_endpoint;
use wgpull::validation::validate_wg_key;

fn config() -> LighthouseConfig {
    LighthouseConfig {
        lighthouse_key: "lk".to_string(),
        node_key: "node-secret".to_string(),
        port: 8080,
        bindhost: "127.0.0.1".to_string(),
        key_rotation_interval_seconds: 3600,
        key_rotation_tod: (3, 5),
        node_timeout_seconds: 300,
        state_file: "state.toml".to_string(),
    }
}

#[test]
fn challenge_answer_is_hex_sha256_of_secret_then_challenge() {
    let c = ChallengeResponse::with_challenge("secret".to_string(), "abc");
    let expected = "f6ba18523c6942ba1e1b54f8256527ab1b8db94496cf6f4a2b6db9695c0fc6f9";
    assert_eq!(c.response(), expected);
    assert_eq!(c.hash("abc"), expected);
    assert_eq!(c.challenge(), "abc");
    assert!(c.verify(expected));
    assert!(!c.verify("abc"));
}

#[test]
fn fresh_challenge_is_64_alphanumeric() {
    let c = ChallengeResponse::new("secret".to_string());
    let s = c.challenge();
    assert_eq!(s.len(), 64);
    assert!(s.chars().all(|ch| ch.is_ascii_alphanumeric()));
    assert!(c.verify(&c.response()));
}

#[test]
fn authentication_outcomes() {
    let cfg = config();
    assert_eq!(authenticate(&cfg, None, Some("x")), Err(LighthouseResponseError::InvalidLighthouseKey));
    assert_eq!(authenticate(&cfg, Some("nope"), Some("x")), Err(LighthouseResponseError::InvalidLighthouseKey));
    assert_eq!(authenticate(&cfg, Some("lk"), None), Err(LighthouseResponseError::InvalidNodeKey));
    assert_eq!(
        authenticate(&cfg, Some("lk"), Some("challenge-0123456789")).unwrap(),
        "4bd20b019bce1514c5efa87f6e12b2b108dc93810609830b0a51ac6cfa6c0430"
    );
}

#[test]
fn status_codes() {
    assert_eq!(LighthouseResponseError::InvalidLighthouseKey.status_code(), 401);
    assert_eq!(LighthouseResponseError::InvalidNodeKey.status_code(), 401);
    assert_eq!(LighthouseResponseError::BadRequestBody.status_code(), 400);
    assert_eq!(LighthouseResponseError::BadResponseBody.status_code(), 500);
    assert_eq!(LighthouseResponseError::InternalError.status_code(), 500);
    assert_eq!(LighthouseResponseError::InvalidLighthouseKey.message(), "Invalid lighthouse key in request!");
}

#[test]
fn psk_is_44_chars_of_base64_32_bytes() {
    let k = generate_psk();
    assert_eq!(k.len(), 44);
    assert_eq!(validate_wg_key("k", &k), Ok(()));
    assert_ne!(generate_psk(), k);
}

#[test]
fn peer_pair_is_unordered() {
    let ab = PeerPair::new("alpha".to_string(), "bravo".to_string());
    let ba = PeerPair::new("bravo".to_string(), "alpha".to_string());
    assert_eq!(ab, ba);
    assert_eq!(ab.first(), "alpha");
    assert_eq!(ab.second(), "bravo");
    assert!(ab.contains("bravo"));
    assert!(!ab.contains("charlie"));
    assert_ne!(ab, PeerPair::new("alpha".to_string(), "charlie".to_string()));
}

#[test]
fn endpoint_split() {
    assert_eq!(split_endpoint("10.0.0.1:51821", 51820), ("10.0.0.1".to_string(), 51821));
    assert_eq!(split_endpoint("vpn.example.com", 51820), ("vpn.example.com".to_string(), 51820));
    assert_eq!(split_endpoint("host:notaport", 7), ("host".to_string(), 7));
}

fn metrics_request(hostname: &str, rx: i64) -> NodeMetricsPushRequest {
    NodeMetricsPushRequest {
        hostname: hostname.to_string(),
        interface: "wg0".to_string(),
        listening_port: 51820,
        peers: vec![NodeMetricsPushRequestPeer {
            hostname: "bravo".to_string(),
            endpoint: "10.0.0.2:51820".to_string(),
            latest_handshake: 1700000000,
            transfer_rx: rx,
            transfer_tx: 2048,
            persistent_keepalive: 25,
        }],
    }
}

#[test]
fn prometheus_export_text() {
    let mut m = LighthouseMetrics::new();
    assert_eq!(m.export_prometheus(), "");
    m.upsert_metrics(&metrics_request("alpha", -5));
    let expected = "lighthouse_node_up{hostname=\"alpha\"} 1\n\
lighthouse_peer_latest_handshake{hostname=\"alpha\",peer_hostname=\"bravo\"} 1700000000\n\
lighthouse_peer_transfer_rx{hostname=\"alpha\",peer_hostname=\"bravo\"} -5\n\
lighthouse_peer_transfer_tx{hostname=\"alpha\",peer_hostname=\"bravo\"} 2048\n";
    assert_eq!(m.export_prometheus(), expected);
    m.upsert_metrics(&metrics_request("alpha", 7));
    assert!(m.export_prometheus().contains("peer_hostname=\"bravo\"} 7\n"));
    assert_eq!(m.export_prometheus().matches("lighthouse_node_up").count(), 1);
}

#[test]
fn metrics_push_needs_auth() {
    let cfg = config();
    let mut m = LighthouseMetrics::new();
    let r = handle_metrics_push(&mut m, &cfg, Some("bad"), Some("c"), &metrics_request("alpha", 1));
    assert_eq!(r, Err(LighthouseResponseError::InvalidLighthouseKey));
    assert_eq!(m.export_prometheus(), "");
    let mut bad = metrics_request("alpha", 1);
    bad.interface = String::new();
    let r = handle_metrics_push(&mut m, &cfg, Some("lk"), Some("c"), &bad);
    assert_eq!(r, Err(LighthouseResponseError::BadRequestBody));
    let r = handle_metrics_push(&mut m, &cfg, Some("lk"), Some("c"), &metrics_request("alpha", 1));
    assert!(r.is_ok());
    assert!(m.export_prometheus().starts_with("lighthouse_node_up{hostname=\"alpha\"} 1\n"));
}

#[test]
fn listen_addr_and_urls() {
    assert_eq!(config().get_listen_addr(), "127.0.0.1:8080");
    let mut n = NodeConfig {
        lighthouse_host: "lh.example.com".to_string(),
        lighthouse_port: 443,
        lighthouse_path_prefix: "wg/".to_string(),
        lighthouse_ssl: true,
        lighthouse_key: "lk".to_string(),
        node_key: "nk".to_string(),
        pull_interval: 30,
        metrics_interval: 60,
        state_file: "node.toml".to_string(),
    };
    assert_eq!(n.get_lighthouse_scheme(), "https");
    assert_eq!(n.get_lighthouse_url(), "https://lh.example.com:443/wg/");
    n.lighthouse_ssl = false;
    n.lighthouse_port = 0;
    assert_eq!(n.get_lighthouse_scheme(), "http");
    assert_eq!(n.get_lighthouse_url(), "http://lh.example.com:0/wg/");
}

#[test]
fn config_discovery_order() {
    assert_eq!(discover_config_path(true, true).unwrap(), SYSTEM_CONFIG_PATH);
    assert_eq!(discover_config_path(false, true).unwrap(), LOCAL_CONFIG_PATH);
    assert!(discover_config_path(false, false).is_err());
}

fn node_state() -> NodeState {
    NodeState {
        hostname: "alpha".to_string(),
        private_key: "priv".to_string(),
        public_key: "pub".to_string(),
        address: "10.1.0.1/24".to_string(),
        endpoint: "10.0.0.1".to_string(),
        listen_port: 51820,
        persistent_keepalive: 25,
        allowed_ips: vec!["10.1.0.0/24".to_string()],
        peers: vec![NodePeer {
            hostname: "bravo".to_string(),
            public_key: "KB".to_string(),
            preshared_key: "P".to_string(),
            endpoint_host: "10.0.0.2".to_string(),
            endpoint_port: 51820,
            allowed_ips: vec![],
            persistent_keepalive: 25,
            route_allowed_ips: false,
        }],
        route_allowed_ips: true,
    }
}

#[test]
fn hostname_by_public_key() {
    let s = node_state();
    assert_eq!(s.get_hostname_by_public_key("KB"), "bravo");
    assert_eq!(s.get_hostname_by_public_key("other"), "unknown");
    let req = s.to_pull_request();
    assert_eq!(req.hostname, "alpha");
    assert_eq!(req.allowed_ips, vec!["10.1.0.0/24".to_string()]);
    let _ = BackendType::Systemd;
}

#[test]
fn pull_response_replaces_peers_and_keys() {
    let mut s = node_state();
    let resp = NodePullResponse {
        regenerate_keys: true,
        peers: vec![NodePullResponsePeer {
            hostname: "charlie".to_string(),
            public_key: "KC".to_string(),
            preshared_key: "PC".to_string(),
            endpoint_host: "10.0.0.3".to_string(),
            endpoint_port: 51821,
            allowed_ips: vec!["10.3.0.0/24".to_string()],
            persistent_keepalive: 10,
            route_allowed_ips: true,
        }],
    };
    s.update_from_pull_response(&resp, Some(KeyPair { public_key: "np".to_string(), private_key: "nv".to_string() }));
    assert_eq!(s.public_key, "np");
    assert_eq!(s.private_key, "nv");
    assert_eq!(s.peers.len(), 1);
    assert_eq!(s.peers[0].hostname, "charlie");
    assert_eq!(s.peers[0].endpoint_port, 51821);
    let mut keep = node_state();
    let quiet = NodePullResponse { regenerate_keys: false, peers: vec![] };
    keep.update_from_pull_response(&quiet, Some(KeyPair { public_key: "x".to_string(), private_key: "y".to_string() }));
    assert_eq!(keep.public_key, "pub");
    assert!(keep.peers.is_empty());
}

#[test]
fn metrics_request_from_wireguard_dump() {
    let s = node_state();
    let info = WireguardInfo {
        interface: "wg0".to_string(),
        public_key: "pub".to_string(),
        private_key: "priv".to_string(),
        listening_port: 51820,
        peers: vec![PeerInfo {
            interface: "wg0".to_string(),
            public_key: "KB".to_string(),
            private_key: "(none)".to_string(),
            endpoint: "10.0.0.2:51820".to_string(),
            allowed_ips: "10.2.0.0/24".to_string(),
            latest_handshake: 5,
            transfer_rx: 6,
            transfer_tx: 7,
            persistent_keepalive: 25,
        }],
    };
    let req = s.metrics_push_request_from_info(info.clone()).unwrap();
    assert_eq!(req.hostname, "alpha");
    assert_eq!(req.peers[0].hostname, "bravo");
    assert_eq!(req.peers[0].transfer_tx, 7);
    let mut bad = info;
    bad.interface = "wg-0".to_string();
    assert!(s.metrics_push_request_from_info(bad).is_err());
}

#[test]
fn failure_texts() {
    assert_eq!(LighthouseResponseError::InvalidNodeKey.message(), "Invalid node key in request!");
    assert_eq!(LighthouseResponseError::BadRequestBody.message(), "Request body is invalid!");
    assert_eq!(LighthouseResponseError::BadResponseBody.message(), "Response body is invalid!");
    assert_eq!(LighthouseResponseError::InternalError.message(), "Internal error in lighthouse context!");
}

#[test]
fn answers_are_64_lowercase_hex() {
    let a = authenticate(&config(), Some("lk"), Some("x")).unwrap();
    assert_eq!(a.len(), 64);
    assert!(a.chars().all(|c| c.is_ascii_digit() || ('a'..='f').contains(&c)));
}

#[test]
fn ipv6_endpoint_keeps_listen_port() {
    assert_eq!(split_endpoint("fd00::1", 51820), ("fd00::1".to_string(), 51820));
    assert_eq!(split_endpoint("10.0.0.1", 51820), ("10.0.0.1".to_string(), 51820));
}
