use wgpull::config::LighthouseConfig;
use wgpull::messages::{NodePullRequest, NodePullResponse};
use wgpull::service::{handle_pull, LighthouseResponseError};
use wgpull::snapshot::SnapshotError;
use wgpull::state::LighthouseState;

const KEY_A: &str = "AAAAAAAAAAAAAAAAAAAAAAAAAAAAAAAAAAAAAAAAAAA=";
const KEY_B: &str = "BBBBBBBBBBBBBBBBBBBBBBBBBBBBBBBBBBBBBBBBBBA=";
const KEY_C: &str = "CCCCCCCCCCCCCCCCCCCCCCCCCCCCCCCCCCCCCCCCCCA=";

fn config(timeout: u64, interval: u64, tod: (u8, u8)) -> LighthouseConfig {
    LighthouseConfig {
        lighthouse_key: "lighthouse-secret".to_string(),
        node_key: "node-secret".to_string(),
        port: 8080,
        bindhost: "0.0.0.0".to_string(),
        key_rotation_interval_seconds: interval,
        key_rotation_tod: tod,
        node_timeout_seconds: timeout,
        state_file: "/tmp/state.toml".to_string(),
    }
}

fn request(hostname: &str, endpoint: &str, key: &str, allowed: &[&str]) -> NodePullRequest {
    NodePullRequest {
        hostname: hostname.to_string(),
        endpoint: endpoint.to_string(),
        public_key: key.to_string(),
        listen_port: 51820,
        persistent_keepalive: 25,
        allowed_ips: allowed.iter().map(|s| s.to_string()).collect(),
        route_allowed_ips: true,
    }
}

fn pull(
    state: &mut LighthouseState,
    cfg: &LighthouseConfig,
    req: &NodePullRequest,
    now: u64,
    hour: u32,
) -> NodePullResponse {
    let (resp, answer) = handle_pull(
        state,
        cfg,
        Some("lighthouse-secret"),
        Some("challenge-0123456789"),
        req,
        now,
        hour,
    )
    .expect("pull succeeds");
    assert_eq!(answer.len(), 64);
    resp
}

fn psk_for(resp: &NodePullResponse, hostname: &str) -> String {
    resp.peers
        .iter()
        .find(|p| p.hostname == hostname)
        .map(|p| p.preshared_key.clone())
        .expect("peer present")
}

#[test]
fn first_pull_seeds_the_cluster() {
    let cfg = config(300, 3600, (3, 5));
    let mut state = LighthouseState::new(1_000);
    let resp = pull(&mut state, &cfg, &request("alpha", "10.0.0.1", KEY_A, &["10.1.0.0/24"]), 1_000, 12);
    assert!(!resp.regenerate_keys);
    assert!(resp.peers.is_empty());
    assert_eq!(state.nodes.len(), 1);
    assert_eq!(state.nodes[0].hostname, "alpha");
    assert_eq!(state.nodes[0].last_seen, 1_000);
    assert_eq!(state.nodes[0].last_rotation, 1_000);
    assert!(state.preshared_keys.is_empty());
}

#[test]
fn second_node_sees_first_with_same_psk() {
    let cfg = config(300, 3600, (3, 5));
    let mut state = LighthouseState::new(1_000);
    pull(&mut state, &cfg, &request("alpha", "10.0.0.1", KEY_A, &["10.1.0.0/24"]), 1_000, 12);
    let to_bravo = pull(&mut state, &cfg, &request("bravo", "10.0.0.2", KEY_B, &[]), 1_010, 12);
    assert_eq!(to_bravo.peers.len(), 1);
    let alpha = &to_bravo.peers[0];
    assert_eq!(alpha.hostname, "alpha");
    assert_eq!(alpha.endpoint_host, "10.0.0.1");
    assert_eq!(alpha.endpoint_port, 51820);
    assert_eq!(alpha.public_key, KEY_A);
    assert_eq!(alpha.allowed_ips, vec!["10.1.0.0/24".to_string()]);
    assert_eq!(alpha.preshared_key.len(), 44);
    assert_eq!(state.preshared_keys.len(), 1);
    let to_alpha = pull(&mut state, &cfg, &request("alpha", "10.0.0.1", KEY_A, &["10.1.0.0/24"]), 1_020, 12);
    assert_eq!(to_alpha.peers.len(), 1);
    assert_eq!(to_alpha.peers[0].hostname, "bravo");
    assert_eq!(to_alpha.peers[0].preshared_key, alpha.preshared_key);
    assert_eq!(state.preshared_keys.len(), 1);
}

#[test]
fn expiry_cascades_to_keys() {
    let cfg = config(60, 3600, (3, 5));
    let mut state = LighthouseState::new(0);
    pull(&mut state, &cfg, &request("alpha", "10.0.0.1", KEY_A, &[]), 0, 12);
    pull(&mut state, &cfg, &request("bravo", "10.0.0.2", KEY_B, &[]), 0, 12);
    let to_charlie = pull(&mut state, &cfg, &request("charlie", "10.0.0.3", KEY_C, &[]), 60, 12);
    let ac = psk_for(&to_charlie, "alpha");
    let alpha_view = pull(&mut state, &cfg, &request("alpha", "10.0.0.1", KEY_A, &[]), 60, 12);
    assert_eq!(alpha_view.peers.len(), 2);
    assert_eq!(state.preshared_keys.len(), 3);
    // bravo last pulled at 0; at 120 it is 120 s old, past the 60 s timeout
    let resp = pull(&mut state, &cfg, &request("alpha", "10.0.0.1", KEY_A, &[]), 120, 12);
    assert_eq!(resp.peers.len(), 1);
    assert_eq!(resp.peers[0].hostname, "charlie");
    assert_eq!(resp.peers[0].preshared_key, ac);
    assert!(state.nodes.iter().all(|n| n.hostname != "bravo"));
    assert_eq!(state.preshared_keys.len(), 1);
    assert!(state.preshared_keys.iter().all(|k| !k.peers.contains("bravo")));
}

#[test]
fn rotation_window() {
    let cfg = config(86_400, 3600, (3, 5));
    let mut state = LighthouseState::new(0);
    let t0 = 9_000;
    let first = pull(&mut state, &cfg, &request("alpha", "10.0.0.1", KEY_A, &[]), t0, 2);
    assert!(!first.regenerate_keys);
    let second = pull(&mut state, &cfg, &request("alpha", "10.0.0.1", KEY_A, &[]), t0 + 3600, 4);
    assert!(second.regenerate_keys);
    assert_eq!(state.nodes[0].last_rotation, t0 + 3600);
    let third = pull(&mut state, &cfg, &request("alpha", "10.0.0.1", KEY_A, &[]), t0 + 3660, 4);
    assert!(!third.regenerate_keys);
}

#[test]
fn auth_failure_does_not_mutate() {
    let cfg = config(300, 3600, (3, 5));
    let mut state = LighthouseState::new(500);
    let req = request("delta", "10.0.0.4", KEY_A, &[]);
    let r = handle_pull(&mut state, &cfg, Some("wrong"), Some("abc"), &req, 900, 12);
    assert_eq!(r.unwrap_err(), LighthouseResponseError::InvalidLighthouseKey);
    assert!(state.nodes.is_empty());
    assert_eq!(state.last_modified, 500);
    let r = handle_pull(&mut state, &cfg, None, Some("abc"), &req, 900, 12);
    assert_eq!(r.unwrap_err(), LighthouseResponseError::InvalidLighthouseKey);
    let r = handle_pull(&mut state, &cfg, Some("lighthouse-secret"), None, &req, 900, 12);
    assert_eq!(r.unwrap_err(), LighthouseResponseError::InvalidNodeKey);
    assert!(state.nodes.is_empty());
    assert_eq!(state.last_modified, 500);
}

#[test]
fn snapshot_round_trip_continues_without_new_keys() {
    let cfg = config(300, 3600, (3, 5));
    let mut state = LighthouseState::new(100);
    pull(&mut state, &cfg, &request("alpha", "10.0.0.1", KEY_A, &["10.1.0.0/24", "fd00::/64"]), 100, 12);
    let first = pull(&mut state, &cfg, &request("bravo", "10.0.0.2:51821", KEY_B, &[]), 110, 12);
    let saved = state.save_snapshot();
    assert!(saved.starts_with("last_modified = 1970-01-01T00:01:50Z\n"));
    assert!(saved.contains("[nodes.\"alpha\"]\nendpoint = \"10.0.0.1\"\n"));
    assert!(saved.contains("[[preshared_keys]]\npeers = [\"alpha\", \"bravo\"]\n"));
    let mut loaded = LighthouseState::load_snapshot(&saved).expect("snapshot loads");
    assert_eq!(loaded.last_modified, state.last_modified);
    assert_eq!(loaded.nodes.len(), 2);
    assert_eq!(loaded.nodes[0].hostname, "alpha");
    assert_eq!(loaded.nodes[0].allowed_ips, state.nodes[0].allowed_ips);
    assert_eq!(loaded.nodes[1].endpoint, "10.0.0.2:51821");
    assert_eq!(loaded.preshared_keys.len(), 1);
    assert_eq!(loaded.preshared_keys[0].key, state.preshared_keys[0].key);
    assert_eq!(loaded.save_snapshot(), saved);
    let again = pull(&mut loaded, &cfg, &request("alpha", "10.0.0.1", KEY_A, &[]), 120, 12);
    assert_eq!(again.peers.len(), 1);
    assert_eq!(again.peers[0].preshared_key, first.peers[0].preshared_key);
    assert_eq!(again.peers[0].endpoint_port, 51821);
    assert_eq!(loaded.preshared_keys.len(), 1);
    assert_eq!(LighthouseState::load_snapshot("").unwrap_err(), SnapshotError::Malformed);
    assert_eq!(LighthouseState::load_snapshot("last_modified = x\n").unwrap_err(), SnapshotError::Malformed);
}

#[test]
fn snapshot_escapes_and_rejects() {
    let mut state = LighthouseState::new(7);
    let cfg = config(300, 3600, (3, 5));
    // the pull transaction itself takes any text; the snapshot escapes it
    let odd = request("we\"ird\\name", "e\tp", KEY_A, &["x\u{1}y"]);
    state.node_pull(&cfg, &odd, 8, 1);
    let saved = state.save_snapshot();
    assert!(saved.contains("[nodes.\"we\\\"ird\\\\name\"]"));
    assert!(saved.contains("\"e\\u0009p\""));
    let loaded = LighthouseState::load_snapshot(&saved).unwrap();
    assert_eq!(loaded.nodes[0].hostname, "we\"ird\\name");
    assert_eq!(loaded.nodes[0].endpoint, "e\tp");
    assert_eq!(loaded.nodes[0].allowed_ips, vec!["x\u{1}y".to_string()]);
    let dup = format!("{}{}", saved, saved.trim_start_matches("last_modified = 1970-01-01T00:00:08Z\n"));
    assert_eq!(LighthouseState::load_snapshot(&dup).unwrap_err(), SnapshotError::Malformed);
}

#[test]
fn rotation_window_wraps_midnight() {
    let cfg = config(86_400 * 10, 3600, (22, 2));
    let mut state = LighthouseState::new(0);
    pull(&mut state, &cfg, &request("alpha", "10.0.0.1", KEY_A, &[]), 0, 12);
    assert!(!pull(&mut state, &cfg, &request("alpha", "10.0.0.1", KEY_A, &[]), 7200, 12).regenerate_keys);
    assert!(pull(&mut state, &cfg, &request("alpha", "10.0.0.1", KEY_A, &[]), 7300, 23).regenerate_keys);
    assert!(pull(&mut state, &cfg, &request("alpha", "10.0.0.1", KEY_A, &[]), 7300 + 3600, 1).regenerate_keys);
    assert!(!pull(&mut state, &cfg, &request("alpha", "10.0.0.1", KEY_A, &[]), 7300 + 7300, 3).regenerate_keys);
}

#[test]
fn bad_request_body_does_not_mutate() {
    let cfg = config(300, 3600, (3, 5));
    let mut state = LighthouseState::new(5);
    let req = request("bad_host", "10.0.0.1", KEY_A, &[]);
    let r = handle_pull(&mut state, &cfg, Some("lighthouse-secret"), Some("c"), &req, 9, 12);
    assert_eq!(r.unwrap_err(), LighthouseResponseError::BadRequestBody);
    assert!(state.nodes.is_empty());
    assert_eq!(state.last_modified, 5);
}

#[test]
fn snapshot_time_is_rfc3339() {
    for (secs, text) in [
        (1_700_000_000u64, "2023-11-14T22:13:20Z"),
        (951_782_400, "2000-02-29T00:00:00Z"),
        (0, "1970-01-01T00:00:00Z"),
        (253_402_300_799, "9999-12-31T23:59:59Z"),
    ] {
        let state = LighthouseState::new(secs);
        let saved = state.save_snapshot();
        assert_eq!(saved, format!("last_modified = {}\n", text));
        assert_eq!(LighthouseState::load_snapshot(&saved).unwrap().last_modified, secs);
    }
    assert!(LighthouseState::load_snapshot("last_modified = 2023-02-29T00:00:00Z\n").is_err());
    assert!(LighthouseState::load_snapshot("last_modified = 1969-12-31T23:59:59Z\n").is_err());
    assert!(LighthouseState::load_snapshot("last_modified = 110\n").is_err());
}
