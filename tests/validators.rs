use wgpull::messages::{NodeMetricsPushRequest, NodeMetricsPushRequestPeer, NodePullRequest};
use wgpull::validation::{
    validate_cidr, validate_hostname, validate_hostname_or_ip, validate_interface_name,
    validate_ip, validate_port, validate_wg_key, Validated, ValidationError, HOSTNAME_TOO_LONG,
    INTERFACE_CHARACTER, INTERFACE_TOO_LONG, INVALID_BASE64, INVALID_CIDR, INVALID_IP,
    INVALID_KEY_LENGTH, INVALID_PORT, INVALID_PORT_VALUE, LABEL_CHARACTER, LABEL_LENGTH,
    PORT_FIELD,
};

const KEY: &str = "AAAAAAAAAAAAAAAAAAAAAAAAAAAAAAAAAAAAAAAAAAA=";

#[test]
fn hostname_accepts_labels_and_port() {
    assert_eq!(validate_hostname("h", "alpha"), Ok(()));
    assert_eq!(validate_hostname("h", "alpha.example.com"), Ok(()));
    assert_eq!(validate_hostname("h", "node-1:51820"), Ok(()));
    assert_eq!(validate_hostname("h", "10.0.0.1"), Ok(()));
}

#[test]
fn hostname_rejections() {
    let long = "a".repeat(254);
    assert_eq!(validate_hostname("h", &long), Err(ValidationError::InvalidFormat("h", HOSTNAME_TOO_LONG)));
    assert_eq!(validate_hostname("h", "a..b"), Err(ValidationError::InvalidFormat("h", LABEL_LENGTH)));
    assert_eq!(validate_hostname("h", ""), Err(ValidationError::InvalidFormat("h", LABEL_LENGTH)));
    let label64 = "b".repeat(64);
    assert_eq!(validate_hostname("h", &label64), Err(ValidationError::InvalidFormat("h", LABEL_LENGTH)));
    assert_eq!(validate_hostname("h", "-abc"), Err(ValidationError::InvalidFormat("h", LABEL_CHARACTER)));
    assert_eq!(validate_hostname("h", "abc-"), Err(ValidationError::InvalidFormat("h", LABEL_CHARACTER)));
    assert_eq!(validate_hostname("h", "ab_c"), Err(ValidationError::InvalidFormat("h", LABEL_CHARACTER)));
    assert_eq!(validate_hostname("h", "abc:0"), Err(ValidationError::InvalidFormat("h", INVALID_PORT)));
    assert_eq!(validate_hostname("h", "abc:65536"), Err(ValidationError::InvalidFormat("h", INVALID_PORT)));
    assert_eq!(validate_hostname("h", "abc:x1"), Err(ValidationError::InvalidFormat("h", INVALID_PORT)));
}

#[test]
fn hostname_length_limits() {
    let label63 = "c".repeat(63);
    assert_eq!(validate_hostname("h", &label63), Ok(()));
    let exactly253 = format!("{}.{}.{}.{}", "a".repeat(63), "b".repeat(63), "c".repeat(63), "d".repeat(61));
    assert_eq!(exactly253.len(), 253);
    assert_eq!(validate_hostname("h", &exactly253), Ok(()));
}

#[test]
fn port_rules() {
    assert_eq!(validate_port("1"), Ok(()));
    assert_eq!(validate_port("65535"), Ok(()));
    assert_eq!(validate_port("+80"), Ok(()));
    let bad = Err(ValidationError::InvalidFormat(PORT_FIELD, INVALID_PORT_VALUE));
    assert_eq!(validate_port("0"), bad);
    assert_eq!(validate_port("65536"), bad);
    assert_eq!(validate_port(""), bad);
    assert_eq!(validate_port("8o"), bad);
}

#[test]
fn ip_rules() {
    assert_eq!(validate_ip("ip", "10.0.0.1"), Ok(()));
    assert_eq!(validate_ip("ip", "10.0.0.1:51820"), Ok(()));
    assert_eq!(validate_ip("ip", "300.0.0.1"), Err(ValidationError::InvalidFormat("ip", INVALID_IP)));
    assert_eq!(validate_ip("ip", "10.0.0.1:0"), Err(ValidationError::InvalidFormat("ip", INVALID_PORT)));
}

#[test]
fn hostname_or_ip_rules() {
    assert_eq!(validate_hostname_or_ip("e", ""), Err(ValidationError::EmptyValue("e")));
    assert_eq!(validate_hostname_or_ip("e", "10.0.0.1"), Ok(()));
    assert_eq!(validate_hostname_or_ip("e", "vpn.example.com:51820"), Ok(()));
    assert_eq!(
        validate_hostname_or_ip("e", "bad_host"),
        Err(ValidationError::InvalidFormat("e", LABEL_CHARACTER))
    );
}

#[test]
fn cidr_rules() {
    assert_eq!(validate_cidr("c", ""), Err(ValidationError::EmptyValue("c")));
    assert_eq!(validate_cidr("c", "10.1.0.0/24"), Ok(()));
    assert_eq!(validate_cidr("c", "fd00::/64"), Ok(()));
    assert_eq!(validate_cidr("c", "10.1.0.0"), Err(ValidationError::InvalidFormat("c", INVALID_CIDR)));
}

#[test]
fn wg_key_rules() {
    assert_eq!(validate_wg_key("k", ""), Err(ValidationError::EmptyValue("k")));
    assert_eq!(validate_wg_key("k", KEY), Ok(()));
    assert_eq!(validate_wg_key("k", "!!!!"), Err(ValidationError::InvalidFormat("k", INVALID_BASE64)));
    assert_eq!(validate_wg_key("k", "AAAA"), Err(ValidationError::InvalidFormat("k", INVALID_KEY_LENGTH)));
}

#[test]
fn interface_name_rules() {
    assert_eq!(validate_interface_name("i", ""), Err(ValidationError::EmptyValue("i")));
    assert_eq!(validate_interface_name("i", "wg0"), Ok(()));
    assert_eq!(validate_interface_name("i", "wg_overlay_0123"), Ok(()));
    assert_eq!(
        validate_interface_name("i", "wg_overlay_01234"),
        Err(ValidationError::InvalidFormat("i", INTERFACE_TOO_LONG))
    );
    assert_eq!(
        validate_interface_name("i", "wg-0"),
        Err(ValidationError::InvalidFormat("i", INTERFACE_CHARACTER))
    );
}

#[test]
fn validators_are_repeatable() {
    for input in ["alpha", "a..b", "10.0.0.1:80", "", "-x"] {
        assert_eq!(validate_hostname_or_ip("v", input), validate_hostname_or_ip("v", input));
        assert_eq!(validate_hostname("v", input), validate_hostname("v", input));
    }
}

fn pull_request() -> NodePullRequest {
    NodePullRequest {
        hostname: "alpha".to_string(),
        endpoint: "10.0.0.1".to_string(),
        public_key: KEY.to_string(),
        listen_port: 51820,
        persistent_keepalive: 25,
        allowed_ips: vec!["10.1.0.0/24".to_string()],
        route_allowed_ips: true,
    }
}

#[test]
fn pull_request_validation_order() {
    assert_eq!(pull_request().validate(), Ok(()));
    let mut r = pull_request();
    r.hostname = "bad_host".to_string();
    r.public_key = String::new();
    assert_eq!(r.validate(), Err(ValidationError::InvalidFormat("hostname", LABEL_CHARACTER)));
    let mut r = pull_request();
    r.endpoint = String::new();
    assert_eq!(r.validate(), Err(ValidationError::EmptyValue("endpoint")));
    let mut r = pull_request();
    r.public_key = "AAAA".to_string();
    assert_eq!(r.validate(), Err(ValidationError::InvalidFormat("public_key", INVALID_KEY_LENGTH)));
    let mut r = pull_request();
    r.allowed_ips.push("nonsense".to_string());
    assert_eq!(r.validate(), Err(ValidationError::InvalidFormat("allowed_ip[]", INVALID_CIDR)));
}

#[test]
fn metrics_request_validation() {
    let peer = NodeMetricsPushRequestPeer {
        hostname: "bravo".to_string(),
        endpoint: "10.0.0.2:51820".to_string(),
        latest_handshake: 10,
        transfer_rx: 1,
        transfer_tx: 2,
        persistent_keepalive: 25,
    };
    let mut req = NodeMetricsPushRequest {
        hostname: "alpha".to_string(),
        interface: "wg0".to_string(),
        listening_port: 51820,
        peers: vec![peer],
    };
    assert_eq!(req.validate(), Ok(()));
    req.peers[0].endpoint = String::new();
    assert_eq!(req.validate(), Err(ValidationError::EmptyValue("endpoint")));
    req.interface = "wg-0".to_string();
    assert_eq!(req.validate(), Err(ValidationError::InvalidFormat("interface", INTERFACE_CHARACTER)));
}

#[test]
fn bare_ipv6_addresses() {
    assert_eq!(validate_ip("ip", "::1"), Ok(()));
    assert_eq!(validate_ip("ip", "fe80::1"), Ok(()));
    assert_eq!(validate_ip("ip", "fe80::1:0"), Ok(()));
    assert_eq!(validate_hostname_or_ip("e", "fd00::1"), Ok(()));
    assert_eq!(validate_ip("ip", "zz::1"), Err(ValidationError::InvalidFormat("ip", INVALID_IP)));
}
