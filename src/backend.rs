use vstd::prelude::*;

use crate::challenge::{challenge_answer, ChallengeResponse};
use crate::messages::{clone_strings, strings_view};
use crate::node::{AgentError, NodePeer, NodeState, SystemdConfig};
use crate::text::{decimal, push_decimal};

verus! {

pub const PREAMBLE: &'static str = "# This file is generated by wgpull, changes will be lost.\n\n";

/// The strings joined by `, `.
pub open spec fn joined(ss: Seq<Seq<char>>) -> Seq<char>
    decreases ss.len(),
{
    if ss.len() == 0 {
        seq![]
    } else if ss.len() == 1 {
        ss[0]
    } else {
        joined(ss.drop_last()) + ", "@ + ss.last()
    }
}

/// The `[WireGuardPeer]` section of one peer.
pub open spec fn netdev_peer(p: NodePeer) -> Seq<char> {
    "# Peer: "@ + p.hostname@ + "\n"@ + "[WireGuardPeer]\n"@ + "Endpoint = "@ + p.endpoint_host@ + ":"@
        + decimal(p.endpoint_port as nat) + "\n"@ + "PublicKey = "@ + p.public_key@ + "\n"@
        + "PresharedKey = "@ + p.preshared_key@ + "\n"@ + "AllowedIPs = "@ + joined(
        strings_view(p.allowed_ips@),
    ) + "\n"@ + "PersistentKeepalive = "@ + decimal(p.persistent_keepalive as nat) + "\n\n"@
}

pub open spec fn netdev_peers(ps: Seq<NodePeer>) -> Seq<char>
    decreases ps.len(),
{
    if ps.len() == 0 {
        seq![]
    } else {
        netdev_peers(ps.drop_last()) + netdev_peer(ps.last())
    }
}

/// The systemd-networkd `.netdev` file of the interface.
pub open spec fn netdev_text(interface: Seq<char>, s: NodeState) -> Seq<char> {
    PREAMBLE@ + "[NetDev]\n"@ + "Name = "@ + interface + "\n"@ + "Kind = wireguard\n"@
        + "Description = Wireguard Interface\n\n"@ + "[WireGuard]\n"@ + "PrivateKey = "@
        + s.private_key@ + "\n"@ + "ListenPort = "@ + decimal(s.listen_port as nat) + "\n\n"@
        + netdev_peers(s.peers@)
}

/// One `[Route]` section per network.
pub open spec fn route_sections(ips: Seq<Seq<char>>) -> Seq<char>
    decreases ips.len(),
{
    if ips.len() == 0 {
        seq![]
    } else {
        route_sections(ips.drop_last()) + "\n[Route]\nDestination = "@ + ips.last()
            + "\nScope=link\n\n"@
    }
}

pub open spec fn peers_routes(ps: Seq<NodePeer>) -> Seq<char>
    decreases ps.len(),
{
    if ps.len() == 0 {
        seq![]
    } else {
        peers_routes(ps.drop_last()) + route_sections(strings_view(ps.last().allowed_ips@))
    }
}

/// The systemd-networkd `.network` file of the interface: its address and, where the node
/// routes its peers' networks, one route per network.
pub open spec fn network_text(interface: Seq<char>, s: NodeState) -> Seq<char> {
    PREAMBLE@ + "[Match]\n"@ + "Name = "@ + interface + "\n"@ + "[Network]\n"@ + "Address = "@
        + s.address@ + "\n\n"@ + if s.route_allowed_ips {
        peers_routes(s.peers@)
    } else {
        seq![]
    }
}

fn push_joined(out: &mut String, ss: &Vec<String>)
    ensures
        final(out)@ == old(out)@ + joined(strings_view(ss@)),
{
    let ghost all = strings_view(ss@);
    let ghost start = out@;
    let mut i: usize = 0;
    assert(all.take(0) =~= Seq::<Seq<char>>::empty());
    while i < ss.len()
        invariant
            i <= ss.len(),
            all == strings_view(ss@),
            out@ == start + joined(all.take(i as int)),
        decreases ss.len() - i,
    {
        assert(all.take(i + 1).drop_last() =~= all.take(i as int));
        if i > 0 {
            out.append(", ");
        }
        out.append(ss[i].as_str());
        i += 1;
        if i == 1 {
            assert(all.take(1) =~= seq![all[0]]);
        }
        assert(out@ =~= start + joined(all.take(i as int)));
    }
    assert(all.take(i as int) =~= all);
}

#[verifier::rlimit(50)]
fn push_netdev_peer(out: &mut String, p: &NodePeer)
    ensures
        final(out)@ == old(out)@ + netdev_peer(*p),
{
    out.append("# Peer: ");
    out.append(p.hostname.as_str());
    out.append("\n");
    out.append("[WireGuardPeer]\n");
    out.append("Endpoint = ");
    out.append(p.endpoint_host.as_str());
    out.append(":");
    push_decimal(out, p.endpoint_port as u64);
    out.append("\n");
    out.append("PublicKey = ");
    out.append(p.public_key.as_str());
    out.append("\n");
    out.append("PresharedKey = ");
    out.append(p.preshared_key.as_str());
    out.append("\n");
    out.append("AllowedIPs = ");
    push_joined(out, &p.allowed_ips);
    out.append("\n");
    out.append("PersistentKeepalive = ");
    push_decimal(out, p.persistent_keepalive as u64);
    out.append("\n\n");
    assert(final(out)@ =~= old(out)@ + netdev_peer(*p));
}

/// The systemd-networkd `.netdev` file: the interface, its key and port, then each peer.
pub fn get_interface_netdev_contents(config: &SystemdConfig, state: &NodeState) -> (r: String)
    ensures
        r@ == netdev_text(config.interface@, *state),
{
    let mut content = String::from_str(PREAMBLE);
    content.append("[NetDev]\n");
    content.append("Name = ");
    content.append(config.interface.as_str());
    content.append("\n");
    content.append("Kind = wireguard\n");
    content.append("Description = Wireguard Interface\n\n");
    content.append("[WireGuard]\n");
    content.append("PrivateKey = ");
    content.append(state.private_key.as_str());
    content.append("\n");
    content.append("ListenPort = ");
    push_decimal(&mut content, state.listen_port as u64);
    content.append("\n\n");
    let ghost head = content@;
    let mut i: usize = 0;
    assert(state.peers@.take(0) =~= Seq::<NodePeer>::empty());
    while i < state.peers.len()
        invariant
            i <= state.peers.len(),
            content@ == head + netdev_peers(state.peers@.take(i as int)),
        decreases state.peers.len() - i,
    {
        assert(state.peers@.take(i + 1).drop_last() =~= state.peers@.take(i as int));
        push_netdev_peer(&mut content, &state.peers[i]);
        i += 1;
        assert(content@ =~= head + netdev_peers(state.peers@.take(i as int)));
    }
    assert(state.peers@.take(i as int) =~= state.peers@);
    assert(content@ =~= netdev_text(config.interface@, *state));
    content
}

fn push_routes(out: &mut String, ips: &Vec<String>)
    ensures
        final(out)@ == old(out)@ + route_sections(strings_view(ips@)),
{
    let ghost all = strings_view(ips@);
    let ghost start = out@;
    let mut i: usize = 0;
    assert(all.take(0) =~= Seq::<Seq<char>>::empty());
    while i < ips.len()
        invariant
            i <= ips.len(),
            all == strings_view(ips@),
            out@ == start + route_sections(all.take(i as int)),
        decreases ips.len() - i,
    {
        assert(all.take(i + 1).drop_last() =~= all.take(i as int));
        out.append("\n[Route]\nDestination = ");
        out.append(ips[i].as_str());
        out.append("\nScope=link\n\n");
        i += 1;
        assert(out@ =~= start + route_sections(all.take(i as int)));
    }
    assert(all.take(i as int) =~= all);
}

/// The systemd-networkd `.network` file: the interface's address and, where the node routes
/// its peers' networks, a route for each.
pub fn get_interface_network_contents(config: &SystemdConfig, state: &NodeState) -> (r: String)
    ensures
        r@ == network_text(config.interface@, *state),
{
    let mut content = String::from_str(PREAMBLE);
    content.append("[Match]\n");
    content.append("Name = ");
    content.append(config.interface.as_str());
    content.append("\n");
    content.append("[Network]\n");
    content.append("Address = ");
    content.append(state.address.as_str());
    content.append("\n\n");
    let ghost head = content@;
    if state.route_allowed_ips {
        let mut i: usize = 0;
        assert(state.peers@.take(0) =~= Seq::<NodePeer>::empty());
        while i < state.peers.len()
            invariant
                i <= state.peers.len(),
                content@ == head + peers_routes(state.peers@.take(i as int)),
            decreases state.peers.len() - i,
        {
            assert(state.peers@.take(i + 1).drop_last() =~= state.peers@.take(i as int));
            push_routes(&mut content, &state.peers[i].allowed_ips);
            i += 1;
            assert(content@ =~= head + peers_routes(state.peers@.take(i as int)));
        }
        assert(state.peers@.take(i as int) =~= state.peers@);
    } else {
        assert(content@ =~= head + Seq::<char>::empty());
    }
    content
}

/// A peer section of the UCI network configuration.
#[derive(Debug, Clone)]
pub struct UciWireguardPeer {
    pub description: String,
    pub public_key: String,
    pub endpoint_host: String,
    pub endpoint_port: u32,
    pub persistent_keepalive: u32,
    pub route_allowed_ips: bool,
    pub allowed_ips: Vec<String>,
}

/// The WireGuard interface of the UCI network configuration.
#[derive(Debug, Clone)]
pub struct UciWireguardConfig {
    pub private_key: String,
    pub listen_port: u32,
    pub addresses: String,
    pub peers: Vec<UciWireguardPeer>,
}

/// Why a UCI command failed.
#[derive(Debug, Clone)]
pub enum UciError {
    UciCommandFailed(String),
    ParseError,
}

/// The UCI configuration that describes a node state: one section per peer, named by hostname.
pub fn uci_config_from_state(state: &NodeState) -> (r: UciWireguardConfig)
    ensures
        r.private_key@ == state.private_key@,
        r.listen_port == state.listen_port,
        r.addresses@ == state.address@,
        r.peers@.len() == state.peers@.len(),
        forall|i: int|
            0 <= i < state.peers@.len() ==> {
                let u = #[trigger] r.peers@[i];
                let p = state.peers@[i];
                &&& u.description@ == p.hostname@
                &&& u.public_key@ == p.public_key@
                &&& u.endpoint_host@ == p.endpoint_host@
                &&& u.endpoint_port == p.endpoint_port
                &&& u.persistent_keepalive == p.persistent_keepalive
                &&& u.route_allowed_ips == p.route_allowed_ips
                &&& u.allowed_ips@ == p.allowed_ips@
            },
{
    let mut peers: Vec<UciWireguardPeer> = Vec::new();
    let mut i: usize = 0;
    while i < state.peers.len()
        invariant
            i <= state.peers.len(),
            peers@.len() == i,
            forall|j: int|
                0 <= j < i ==> {
                    let u = #[trigger] peers@[j];
                    let p = state.peers@[j];
                    &&& u.description@ == p.hostname@
                    &&& u.public_key@ == p.public_key@
                    &&& u.endpoint_host@ == p.endpoint_host@
                    &&& u.endpoint_port == p.endpoint_port
                    &&& u.persistent_keepalive == p.persistent_keepalive
                    &&& u.route_allowed_ips == p.route_allowed_ips
                    &&& u.allowed_ips@ == p.allowed_ips@
                },
        decreases state.peers.len() - i,
    {
        let p = &state.peers[i];
        peers.push(
            UciWireguardPeer {
                description: p.hostname.clone(),
                public_key: p.public_key.clone(),
                endpoint_host: p.endpoint_host.clone(),
                endpoint_port: p.endpoint_port,
                persistent_keepalive: p.persistent_keepalive,
                route_allowed_ips: p.route_allowed_ips,
                allowed_ips: clone_strings(&p.allowed_ips),
            },
        );
        i += 1;
    }
    UciWireguardConfig {
        private_key: state.private_key.clone(),
        listen_port: state.listen_port,
        addresses: state.address.clone(),
        peers,
    }
}

/// What a node makes of the lighthouse's reply to a request that carried `challenge`:
/// a failure status is a client error; a success must carry the right answer.
pub fn check_lighthouse_reply(
    challenge: &ChallengeResponse,
    success: bool,
    answer: Option<&str>,
) -> (r: Result<(), AgentError>)
    ensures
        !success ==> r is Err && r->Err_0 is ClientError,
        success && answer is None ==> r is Err && r->Err_0 is NoChallengeResponse,
        success && answer is Some ==> (r is Ok <==> answer->0@ == challenge_answer(
            challenge.secret_view(),
            challenge.challenge_view(),
        )),
        success && answer is Some && r is Err ==> r->Err_0 is ChallengeResponseIncorrect,
{
    if !success {
        return Err(AgentError::ClientError(String::from_str("Response Status")));
    }
    match answer {
        Some(a) => {
            if challenge.verify(a) {
                Ok(())
            } else {
                Err(AgentError::ChallengeResponseIncorrect)
            }
        },
        None => Err(AgentError::NoChallengeResponse),
    }
}

/// Number of times `c` occurs in `s`.
pub open spec fn count_of(s: Seq<char>, c: char) -> nat
    decreases s.len(),
{
    if s.len() == 0 {
        0
    } else {
        count_of(s.drop_last(), c) + if s.last() == c {
            1nat
        } else {
            0
        }
    }
}

/// The section a line of `uci -X show` names when it declares a peer of `interface`:
/// `config.section=wireguard_<interface>`, with exactly one `=` and one `.` before it.
pub open spec fn peer_section_of(line: Seq<char>, interface: Seq<char>) -> Option<Seq<char>> {
    let e = crate::validation::first_index_of(line, '=');
    let left = line.take(e);
    let d = crate::validation::first_index_of(left, '.');
    if count_of(line, '=') == 1 && count_of(left, '.') == 1 && line.skip(e + 1) == "wireguard_"@
        + interface {
        Some(left.skip(d + 1))
    } else {
        None
    }
}

proof fn lemma_count_prefix(s: Seq<char>, c: char, i: int)
    requires
        0 <= i < s.len(),
    ensures
        count_of(s.take(i + 1), c) == count_of(s.take(i), c) + if s[i] == c {
            1nat
        } else {
            0
        },
{
    assert(s.take(i + 1).drop_last() =~= s.take(i));
}

/// Positions and count of `c` in `v`: the count, and the first position if any.
fn count_and_first(v: &Vec<char>, hi: usize, c: char) -> (r: (usize, usize))
    requires
        hi <= v.len(),
    ensures
        r.0 == count_of(v@.take(hi as int), c),
        r.1 as int == crate::validation::first_index_of(v@.take(hi as int), c) || (r.1 == hi
            && crate::validation::first_index_of(v@.take(hi as int), c) == -1),
        r.0 >= 1 ==> r.1 as int == crate::validation::first_index_of(v@.take(hi as int), c) && r.1
            < hi,
{
    let mut n: usize = 0;
    let mut first: usize = hi;
    let mut i: usize = 0;
    assert(v@.take(0) =~= Seq::<char>::empty());
    while i < hi
        invariant
            i <= hi <= v.len(),
            n == count_of(v@.take(i as int), c),
            n <= i,
            n == 0 ==> first == hi && forall|j: int| 0 <= j < i ==> v@[j] != c,
            n >= 1 ==> first < i && v@[first as int] == c && forall|j: int| 0 <= j < first ==> v@[j]
                != c,
        decreases hi - i,
    {
        proof {
            lemma_count_prefix(v@, c, i as int);
        }
        if v[i] == c {
            if n == 0 {
                first = i;
            }
            n = n + 1;
        }
        i += 1;
    }
    let ghost u = v@.take(hi as int);
    proof {
        if n == 0 {
            assert forall|j: int| 0 <= j < u.len() implies u[j] != c by {}
            crate::validation::lemma_first_index(u, c, hi as int);
        } else {
            assert forall|j: int| 0 <= j < first implies u[j] != c by {}
            crate::validation::lemma_first_index(u, c, first as int);
        }
    }
    (n, first)
}

/// The peer section a line of `uci -X show` declares for `interface`, if it declares one.
pub fn uci_peer_section(line: &str, interface: &str) -> (r: Option<String>)
    ensures
        match r {
            Some(k) => peer_section_of(line@, interface@) == Some(k@),
            None => peer_section_of(line@, interface@) is None,
        },
{
    let v = crate::validation::chars_of(line);
    assert(v@.take(v@.len() as int) =~= v@);
    let (eq_count, e) = count_and_first(&v, v.len(), '=');
    if eq_count != 1 {
        return None;
    }
    let (dot_count, d) = count_and_first(&v, e, '.');
    assert(v@.take(e as int) == line@.take(e as int));
    if dot_count != 1 {
        return None;
    }
    let mut expected = String::from_str("wireguard_");
    expected.append(interface);
    let value = line.substring_char(e + 1, v.len()).to_owned();
    assert(value@ =~= line@.skip(e + 1));
    if value != expected {
        return None;
    }
    let key = line.substring_char(d + 1, e).to_owned();
    assert(key@ =~= line@.take(e as int).skip(d + 1));
    Some(key)
}

/// The peer described by the values UCI holds for one section: description, public key,
/// endpoint host, endpoint port, keepalive, route flag (`1` routes) and the allowed networks
/// separated by white space.
pub fn uci_peer_from_values(
    description: String,
    public_key: String,
    endpoint_host: String,
    endpoint_port: &str,
    persistent_keepalive: &str,
    route_allowed_ips: &str,
    allowed_ips: &str,
) -> (r: Result<UciWireguardPeer, UciError>)
    ensures
        !crate::validation::is_decimal_at_most(endpoint_port@, u32::MAX as int)
            || !crate::validation::is_decimal_at_most(persistent_keepalive@, u32::MAX as int)
            <==> r is Err,
        r is Ok ==> {
            let p = r->Ok_0;
            &&& p.description == description
            &&& p.public_key == public_key
            &&& p.endpoint_host == endpoint_host
            &&& p.endpoint_port == crate::validation::decimal_value(endpoint_port@)
            &&& p.persistent_keepalive == crate::validation::decimal_value(persistent_keepalive@)
            &&& p.route_allowed_ips == (route_allowed_ips@ == "1"@)
            &&& strings_view(p.allowed_ips@) == if crate::dump::line_words(allowed_ips@).len() > 0 {
                crate::dump::line_words(allowed_ips@)[0]
            } else {
                Seq::<Seq<char>>::empty()
            }
        },
{
    let port = crate::dump::parse_unsigned(endpoint_port, 4294967295);
    let keepalive = crate::dump::parse_unsigned(persistent_keepalive, 4294967295);
    if port.is_none() || keepalive.is_none() {
        return Err(UciError::ParseError);
    }
    let flag = route_allowed_ips.to_owned();
    let one = String::from_str("1");
    let lines = crate::dump::split_lines_words(allowed_ips);
    let ips = if lines.len() > 0 {
        assert(crate::dump::words_view(lines@[0]@) == crate::dump::line_words(allowed_ips@)[0]);
        clone_strings(&lines[0])
    } else {
        Vec::new()
    };
    assert(strings_view(ips@) =~= if crate::dump::line_words(allowed_ips@).len() > 0 {
        crate::dump::line_words(allowed_ips@)[0]
    } else {
        Seq::<Seq<char>>::empty()
    });
    Ok(
        UciWireguardPeer {
            description,
            public_key,
            endpoint_host,
            endpoint_port: port.unwrap() as u32,
            persistent_keepalive: keepalive.unwrap() as u32,
            route_allowed_ips: flag == one,
            allowed_ips: ips,
        },
    )
}

/// Two peer sections with the same values.
pub open spec fn same_uci_peer(a: UciWireguardPeer, b: UciWireguardPeer) -> bool {
    &&& a.description@ == b.description@
    &&& a.public_key@ == b.public_key@
    &&& a.endpoint_host@ == b.endpoint_host@
    &&& a.endpoint_port == b.endpoint_port
    &&& a.persistent_keepalive == b.persistent_keepalive
    &&& a.route_allowed_ips == b.route_allowed_ips
    &&& strings_view(a.allowed_ips@) == strings_view(b.allowed_ips@)
}

/// Whether the current UCI configuration already is the wanted one: the same interface values
/// and the same peer sections, in whatever order.
pub open spec fn same_uci_config(a: UciWireguardConfig, b: UciWireguardConfig) -> bool {
    &&& a.private_key@ == b.private_key@
    &&& a.listen_port == b.listen_port
    &&& a.addresses@ == b.addresses@
    &&& a.peers@.len() == b.peers@.len()
    &&& forall|i: int| 0 <= i < a.peers@.len() ==> has_same_peer(#[trigger] a.peers@[i], b.peers@)
    &&& forall|j: int| 0 <= j < b.peers@.len() ==> has_same_peer(#[trigger] b.peers@[j], a.peers@)
}

/// Whether some peer of `ps` has the same values as `p`.
pub open spec fn has_same_peer(p: UciWireguardPeer, ps: Seq<UciWireguardPeer>) -> bool {
    exists|j: int| 0 <= j < ps.len() && same_uci_peer(p, #[trigger] ps[j])
}

fn same_strings(a: &Vec<String>, b: &Vec<String>) -> (r: bool)
    ensures
        r == (strings_view(a@) == strings_view(b@)),
{
    if a.len() != b.len() {
        assert(strings_view(a@).len() != strings_view(b@).len());
        return false;
    }
    let mut i: usize = 0;
    while i < a.len()
        invariant
            i <= a.len() == b.len(),
            forall|k: int| 0 <= k < i ==> a@[k]@ == b@[k]@,
        decreases a.len() - i,
    {
        if a[i] != b[i] {
            assert(strings_view(a@)[i as int] != strings_view(b@)[i as int]);
            return false;
        }
        i += 1;
    }
    assert(strings_view(a@) =~= strings_view(b@));
    true
}

fn same_peer(a: &UciWireguardPeer, b: &UciWireguardPeer) -> (r: bool)
    ensures
        r == same_uci_peer(*a, *b),
{
    a.description == b.description && a.public_key == b.public_key && a.endpoint_host
        == b.endpoint_host && a.endpoint_port == b.endpoint_port && a.persistent_keepalive
        == b.persistent_keepalive && a.route_allowed_ips == b.route_allowed_ips && same_strings(
        &a.allowed_ips,
        &b.allowed_ips,
    )
}

fn has_same_peer_exec(p: &UciWireguardPeer, b: &Vec<UciWireguardPeer>) -> (r: bool)
    ensures
        r == has_same_peer(*p, b@),
{
    let mut j: usize = 0;
    while j < b.len()
        invariant
            j <= b.len(),
            forall|m: int| 0 <= m < j ==> !same_uci_peer(*p, #[trigger] b@[m]),
        decreases b.len() - j,
    {
        if same_peer(p, &b[j]) {
            return true;
        }
        j += 1;
    }
    false
}

/// Whether every peer of `a` has an equal peer in `b`.
fn peers_covered(a: &Vec<UciWireguardPeer>, b: &Vec<UciWireguardPeer>) -> (r: bool)
    ensures
        r == forall|i: int| 0 <= i < a@.len() ==> has_same_peer(#[trigger] a@[i], b@),
{
    let mut i: usize = 0;
    while i < a.len()
        invariant
            i <= a.len(),
            forall|k: int| 0 <= k < i ==> has_same_peer(#[trigger] a@[k], b@),
        decreases a.len() - i,
    {
        if !has_same_peer_exec(&a[i], b) {
            return false;
        }
        i += 1;
    }
    true
}

/// Whether the current UCI configuration already is the wanted one, peers in any order.
pub fn uci_config_matches(current: &UciWireguardConfig, wanted: &UciWireguardConfig) -> (r: bool)
    ensures
        r == same_uci_config(*current, *wanted),
{
    if current.private_key != wanted.private_key || current.listen_port != wanted.listen_port
        || current.addresses != wanted.addresses || current.peers.len() != wanted.peers.len() {
        return false;
    }
    let forward = peers_covered(&current.peers, &wanted.peers);
    let backward = peers_covered(&wanted.peers, &current.peers);
    forward && backward
}

/// Reads a `u32` as std's integer parsing does: an optional `+`, then digits.
pub fn parse_u32_text(s: &str) -> (r: Option<u32>)
    ensures
        r is Some <==> crate::validation::is_decimal_at_most(s@, u32::MAX as int),
        r is Some ==> r->0 == crate::validation::decimal_value(s@),
{
    match crate::dump::parse_unsigned(s, 4294967295) {
        Some(v) => Some(v as u32),
        None => None,
    }
}

} // verus!
