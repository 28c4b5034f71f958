use vstd::prelude::*;

use crate::config::LighthouseConfig;
use crate::keys::is_issued_key;
use crate::messages::{NodePullRequest, NodePullResponse};
use crate::peer_pair::{canonical_pair, lemma_canonical_pair_symmetric, pair_contains};
use crate::snapshot::state_data;
use crate::state::{has_pair, is_canonical, 
    has_node, in_rotation_window, is_expired, peer_entry, peer_views, peers_for, pull_outcome,
    LighthouseState, NodeLease,
};

verus! {

/// Each entry of a peer list describes another lease, with the key of its pair with `h`.
pub proof fn lemma_peers_for_entry(
    nodes: Seq<NodeLease>,
    h: Seq<char>,
    keys: Map<(Seq<char>, Seq<char>), Seq<char>>,
    i: int,
)
    requires
        0 <= i < peers_for(nodes, h, keys).len(),
    ensures
        exists|j: int|
            0 <= j < nodes.len() && (#[trigger] nodes[j]).hostname@ != h && peers_for(
                nodes,
                h,
                keys,
            )[i] == peer_entry(nodes[j]@, keys[canonical_pair(h, nodes[j].hostname@)]),
    decreases nodes.len(),
{
    let d = nodes.drop_last();
    let rest = peers_for(d, h, keys);
    if i < rest.len() {
        lemma_peers_for_entry(d, h, keys, i);
        let j = choose|j: int|
            0 <= j < d.len() && (#[trigger] d[j]).hostname@ != h && rest[i] == peer_entry(
                d[j]@,
                keys[canonical_pair(h, d[j].hostname@)],
            );
        assert(nodes[j] == d[j]);
    } else {
        assert(nodes[nodes.len() - 1] == nodes.last());
    }
}

/// A node without a lease holds no pre-shared key: its keys went with it.
pub proof fn lemma_no_keys_without_lease(s: LighthouseState, a: Seq<char>)
    requires
        s.wf(),
        !s.leases().contains_key(a),
    ensures
        forall|p: (Seq<char>, Seq<char>)| #[trigger] s.keys().contains_key(p) ==> !pair_contains(p, a),
{
    assert forall|p: (Seq<char>, Seq<char>)| #[trigger] s.keys().contains_key(p) implies !pair_contains(p, a) by {
        let j = choose|j: int|
            0 <= j < s.preshared_keys@.len() && (#[trigger] s.preshared_keys@[j]).peers@ == p;
        assert(has_node(s.nodes@, p.0) && has_node(s.nodes@, p.1));
    }
}

/// Symmetric keys: when `a` pulls and then `b` pulls, the key `a` was given for `b` is the key
/// `b` is given for `a`.
pub proof fn lemma_symmetric_psk(
    s0: LighthouseState,
    config: LighthouseConfig,
    req_a: NodePullRequest,
    now_a: u64,
    hour_a: u32,
    s1: LighthouseState,
    resp_a: NodePullResponse,
    req_b: NodePullRequest,
    now_b: u64,
    hour_b: u32,
    s2: LighthouseState,
    resp_b: NodePullResponse,
    i: int,
    j: int,
)
    requires
        s0.wf(),
        pull_outcome(s0, config, req_a, now_a, hour_a, s1, resp_a),
        pull_outcome(s1, config, req_b, now_b, hour_b, s2, resp_b),
        0 <= i < resp_a.peers@.len(),
        resp_a.peers@[i].hostname@ == req_b.hostname@,
        0 <= j < resp_b.peers@.len(),
        resp_b.peers@[j].hostname@ == req_a.hostname@,
    ensures
        resp_a.peers@[i].preshared_key@ == resp_b.peers@[j].preshared_key@,
        resp_a.peers@[i].preshared_key@ == s2.psk_of(req_a.hostname@, req_b.hostname@),
{
    let a = req_a.hostname@;
    let b = req_b.hostname@;
    lemma_canonical_pair_symmetric(a, b);
    let c = canonical_pair(a, b);
    assert(peer_views(resp_a.peers@)[i] == resp_a.peers@[i]@);
    assert(peer_views(resp_b.peers@)[j] == resp_b.peers@[j]@);
    lemma_peers_for_entry(s1.nodes@, a, s1.keys(), i);
    let x = choose|x: int|
        0 <= x < s1.nodes@.len() && (#[trigger] s1.nodes@[x]).hostname@ != a && peers_for(
            s1.nodes@,
            a,
            s1.keys(),
        )[i] == peer_entry(s1.nodes@[x]@, s1.keys()[canonical_pair(a, s1.nodes@[x].hostname@)]);
    assert(s1.nodes@[x].hostname@ == b);
    assert(s1.leases().contains_key(b));
    assert(s1.keys().contains_key(c));
    lemma_peers_for_entry(s2.nodes@, b, s2.keys(), j);
    let y = choose|y: int|
        0 <= y < s2.nodes@.len() && (#[trigger] s2.nodes@[y]).hostname@ != b && peers_for(
            s2.nodes@,
            b,
            s2.keys(),
        )[j] == peer_entry(s2.nodes@[y]@, s2.keys()[canonical_pair(b, s2.nodes@[y].hostname@)]);
    assert(s2.nodes@[y].hostname@ == a);
    assert(has_node(s2.nodes@, a));
    assert(s2.leases().contains_key(a));
    assert(s2.leases().contains_key(b));
    assert(s2.keys()[c] == s1.keys()[c]);
}

/// Keys persist within membership: a pull keeps the key of every pair whose two nodes both
/// still hold a lease afterwards.
pub proof fn lemma_psk_persists(
    s0: LighthouseState,
    config: LighthouseConfig,
    req: NodePullRequest,
    now: u64,
    hour: u32,
    s1: LighthouseState,
    resp: NodePullResponse,
    a: Seq<char>,
    b: Seq<char>,
)
    requires
        pull_outcome(s0, config, req, now, hour, s1, resp),
        s0.keys().contains_key(canonical_pair(a, b)),
        s1.leases().contains_key(a),
        s1.leases().contains_key(b),
    ensures
        s1.keys().contains_key(canonical_pair(a, b)),
        s1.psk_of(a, b) == s0.psk_of(a, b),
{
    lemma_canonical_pair_symmetric(a, b);
    let c = canonical_pair(a, b);
    assert(s1.leases().contains_key(c.0) && s1.leases().contains_key(c.1));
}

/// Keys are issued anew on rejoin: when a node without a lease pulls, the key of each of its
/// pairs is fresh, none was held before.
pub proof fn lemma_psk_fresh_on_rejoin(
    s0: LighthouseState,
    config: LighthouseConfig,
    req: NodePullRequest,
    now: u64,
    hour: u32,
    s1: LighthouseState,
    resp: NodePullResponse,
)
    requires
        s0.wf(),
        !s0.leases().contains_key(req.hostname@),
        pull_outcome(s0, config, req, now, hour, s1, resp),
    ensures
        forall|k: Seq<char>|
            #[trigger] s1.leases().contains_key(k) && k != req.hostname@ ==> {
                let c = canonical_pair(req.hostname@, k);
                &&& s1.keys().contains_key(c)
                &&& !s0.keys().contains_key(c)
                &&& is_issued_key(s1.keys()[c])
            },
{
    let a = req.hostname@;
    lemma_no_keys_without_lease(s0, a);
    assert forall|k: Seq<char>| #[trigger] s1.leases().contains_key(k) && k != a implies {
        let c = canonical_pair(a, k);
        &&& s1.keys().contains_key(c)
        &&& !s0.keys().contains_key(c)
        &&& is_issued_key(s1.keys()[c])
    } by {
        lemma_canonical_pair_symmetric(a, k);
        let c = canonical_pair(a, k);
        assert(s1.keys().contains_key(c));
        assert(pair_contains(c, a));
    }
}

/// Rotation is gated by the time of day: outside the window no pull asks for new keys.
pub proof fn lemma_rotation_needs_window(
    s0: LighthouseState,
    config: LighthouseConfig,
    req: NodePullRequest,
    now: u64,
    hour: u32,
    s1: LighthouseState,
    resp: NodePullResponse,
)
    requires
        pull_outcome(s0, config, req, now, hour, s1, resp),
        !in_rotation_window(hour, config.key_rotation_tod),
    ensures
        !resp.regenerate_keys,
{
}

/// At most one rotation per interval: after a pull that asked a node to rotate at `t1`, its
/// next pull before `t1 + interval` does not ask again.
pub proof fn lemma_rotation_once_per_interval(
    s0: LighthouseState,
    config: LighthouseConfig,
    req1: NodePullRequest,
    t1: u64,
    hour1: u32,
    s1: LighthouseState,
    resp1: NodePullResponse,
    req2: NodePullRequest,
    t2: u64,
    hour2: u32,
    s2: LighthouseState,
    resp2: NodePullResponse,
)
    requires
        pull_outcome(s0, config, req1, t1, hour1, s1, resp1),
        pull_outcome(s1, config, req2, t2, hour2, s2, resp2),
        req1.hostname@ == req2.hostname@,
        resp1.regenerate_keys,
        t1 <= t2 < t1 + config.key_rotation_interval_seconds,
    ensures
        !resp2.regenerate_keys,
{
    let h = req1.hostname@;
    assert(s1.leases().contains_key(h));
    assert(s1.leases()[h].last_rotation == t1);
}

/// Another node's pull leaves a node's rotation time as it was, while its lease lasts.
pub proof fn lemma_rotation_time_kept(
    s0: LighthouseState,
    config: LighthouseConfig,
    req: NodePullRequest,
    now: u64,
    hour: u32,
    s1: LighthouseState,
    resp: NodePullResponse,
    a: Seq<char>,
)
    requires
        pull_outcome(s0, config, req, now, hour, s1, resp),
        a != req.hostname@,
        s1.leases().contains_key(a),
    ensures
        s0.leases().contains_key(a),
        s1.leases()[a] == s0.leases()[a],
{
}

/// Expiry is complete: after a pull at `now` no lease is older than the timeout.
pub proof fn lemma_expiry_complete(
    s0: LighthouseState,
    config: LighthouseConfig,
    req: NodePullRequest,
    now: u64,
    hour: u32,
    s1: LighthouseState,
    resp: NodePullResponse,
)
    requires
        pull_outcome(s0, config, req, now, hour, s1, resp),
    ensures
        forall|k: Seq<char>|
            #[trigger] s1.leases().contains_key(k) ==> !is_expired(
                s1.leases()[k],
                now,
                config.node_timeout_seconds,
            ),
        s1.leases().contains_key(req.hostname@),
{
}

/// Every two registered nodes share a key, and a pull keeps it so: after the pull the caller
/// shares a key with each other node, and every other pair kept the key it had.
pub proof fn lemma_keys_complete(
    s0: LighthouseState,
    config: LighthouseConfig,
    req: NodePullRequest,
    now: u64,
    hour: u32,
    s1: LighthouseState,
    resp: NodePullResponse,
)
    requires
        s0.wf(),
        s0.complete(),
        pull_outcome(s0, config, req, now, hour, s1, resp),
    ensures
        s1.complete(),
{
    let h = req.hostname@;
    assert forall|a: Seq<char>, b: Seq<char>|
        s1.leases().contains_key(a) && s1.leases().contains_key(b) && a != b implies s1.keys().contains_key(
            canonical_pair(a, b),
        ) by {
        lemma_canonical_pair_symmetric(a, b);
        if a == h {
            assert(s1.keys().contains_key(canonical_pair(h, b)));
        } else if b == h {
            assert(s1.keys().contains_key(canonical_pair(h, a)));
        } else {
            assert(s0.leases().contains_key(a));
            assert(s0.leases().contains_key(b));
            assert(s0.keys().contains_key(canonical_pair(a, b)));
            let c = canonical_pair(a, b);
            assert(s1.leases().contains_key(c.0) && s1.leases().contains_key(c.1));
        }
    }
}

/// A run of pull transactions: pull `i` takes `states[i]` to `states[i + 1]`.
pub open spec fn pull_chain(
    states: Seq<LighthouseState>,
    config: LighthouseConfig,
    reqs: Seq<NodePullRequest>,
    times: Seq<u64>,
    hours: Seq<u32>,
    resps: Seq<NodePullResponse>,
) -> bool {
    &&& states.len() == reqs.len() + 1
    &&& times.len() == reqs.len()
    &&& hours.len() == reqs.len()
    &&& resps.len() == reqs.len()
    &&& forall|i: int|
        0 <= i < reqs.len() ==> #[trigger] pull_outcome(
            states[i],
            config,
            reqs[i],
            times[i],
            hours[i],
            states[i + 1],
            resps[i],
        )
}

/// The key a pull response gives for the peer `b`.
proof fn lemma_entry_key(
    nodes: Seq<NodeLease>,
    a: Seq<char>,
    keys: Map<(Seq<char>, Seq<char>), Seq<char>>,
    resp: NodePullResponse,
    x: int,
)
    requires
        peer_views(resp.peers@) == peers_for(nodes, a, keys),
        0 <= x < resp.peers@.len(),
    ensures
        resp.peers@[x].preshared_key@ == keys[canonical_pair(a, resp.peers@[x].hostname@)],
        has_node(nodes, resp.peers@[x].hostname@),
        resp.peers@[x].hostname@ != a,
{
    assert(peer_views(resp.peers@)[x] == resp.peers@[x]@);
    lemma_peers_for_entry(nodes, a, keys, x);
}

proof fn lemma_key_kept_along(
    states: Seq<LighthouseState>,
    config: LighthouseConfig,
    reqs: Seq<NodePullRequest>,
    times: Seq<u64>,
    hours: Seq<u32>,
    resps: Seq<NodePullResponse>,
    a: Seq<char>,
    b: Seq<char>,
    i: int,
    m: int,
)
    requires
        pull_chain(states, config, reqs, times, hours, resps),
        0 <= i < m < states.len(),
        states[i].keys().contains_key(canonical_pair(a, b)),
        forall|k: int|
            i <= k <= m ==> (#[trigger] states[k]).leases().contains_key(a) && states[k].leases().contains_key(b),
    ensures
        states[m].keys().contains_key(canonical_pair(a, b)),
        states[m].keys()[canonical_pair(a, b)] == states[i].keys()[canonical_pair(a, b)],
    decreases m - i,
{
    let k = m - 1;
    if k > i {
        lemma_key_kept_along(states, config, reqs, times, hours, resps, a, b, i, k);
    }
    assert(pull_outcome(states[k], config, reqs[k], times[k], hours[k], states[k + 1], resps[k]));
    assert(states[m].leases().contains_key(a) && states[m].leases().contains_key(b));
    lemma_psk_persists(states[k], config, reqs[k], times[k], hours[k], states[m], resps[k], a, b);
}

/// Symmetric keys over any run of pulls: when `a` pulls at step `i` and `b` at a later step
/// `j`, with both registered from step `i` on, the key `a` was given for `b` is the key `b` is
/// given for `a`.
pub proof fn lemma_symmetric_psk_along(
    states: Seq<LighthouseState>,
    config: LighthouseConfig,
    reqs: Seq<NodePullRequest>,
    times: Seq<u64>,
    hours: Seq<u32>,
    resps: Seq<NodePullResponse>,
    i: int,
    j: int,
    x: int,
    y: int,
)
    requires
        pull_chain(states, config, reqs, times, hours, resps),
        0 <= i < j < reqs.len(),
        0 <= x < resps[i].peers@.len(),
        resps[i].peers@[x].hostname@ == reqs[j].hostname@,
        0 <= y < resps[j].peers@.len(),
        resps[j].peers@[y].hostname@ == reqs[i].hostname@,
        forall|k: int|
            i < k <= j + 1 ==> (#[trigger] states[k]).leases().contains_key(reqs[i].hostname@)
                && states[k].leases().contains_key(reqs[j].hostname@),
    ensures
        resps[i].peers@[x].preshared_key@ == resps[j].peers@[y].preshared_key@,
{
    let a = reqs[i].hostname@;
    let b = reqs[j].hostname@;
    lemma_canonical_pair_symmetric(a, b);
    let c = canonical_pair(a, b);
    assert(pull_outcome(states[i], config, reqs[i], times[i], hours[i], states[i + 1], resps[i]));
    assert(pull_outcome(states[j], config, reqs[j], times[j], hours[j], states[j + 1], resps[j]));
    lemma_entry_key(states[i + 1].nodes@, a, states[i + 1].keys(), resps[i], x);
    lemma_entry_key(states[j + 1].nodes@, b, states[j + 1].keys(), resps[j], y);
    assert(states[i + 1].leases().contains_key(b));
    assert(states[i + 1].keys().contains_key(c));
    lemma_key_kept_along(states, config, reqs, times, hours, resps, a, b, i + 1, j + 1);
}

/// At most one rotation per interval over any run of pulls with a clock that does not go
/// back: after a pull of node `h` at step `i` asked it to rotate, no later pull of `h` at a
/// step `j` within the interval asks again, whatever other pulls, expiries and rejoins came
/// between.
pub proof fn lemma_rotation_once_per_interval_along(
    states: Seq<LighthouseState>,
    config: LighthouseConfig,
    reqs: Seq<NodePullRequest>,
    times: Seq<u64>,
    hours: Seq<u32>,
    resps: Seq<NodePullResponse>,
    i: int,
    j: int,
)
    requires
        pull_chain(states, config, reqs, times, hours, resps),
        0 <= i < j < reqs.len(),
        forall|m: int, k: int| 0 <= m <= k < times.len() ==> times[m] <= times[k],
        reqs[j].hostname@ == reqs[i].hostname@,
        resps[i].regenerate_keys,
        times[j] < times[i] + config.key_rotation_interval_seconds,
    ensures
        !resps[j].regenerate_keys,
{
    let h = reqs[i].hostname@;
    lemma_rotation_stamp_along(states, config, reqs, times, hours, resps, i, j);
    assert(times[i] <= times[j]);
    assert(pull_outcome(states[j], config, reqs[j], times[j], hours[j], states[j + 1], resps[j]));
}

proof fn lemma_rotation_stamp_along(
    states: Seq<LighthouseState>,
    config: LighthouseConfig,
    reqs: Seq<NodePullRequest>,
    times: Seq<u64>,
    hours: Seq<u32>,
    resps: Seq<NodePullResponse>,
    i: int,
    m: int,
)
    requires
        pull_chain(states, config, reqs, times, hours, resps),
        0 <= i < m <= reqs.len(),
        forall|a: int, k: int| 0 <= a <= k < times.len() ==> times[a] <= times[k],
        resps[i].regenerate_keys,
    ensures
        states[m].leases().contains_key(reqs[i].hostname@) ==> states[m].leases()[reqs[i].hostname@].last_rotation
            >= times[i],
    decreases m - i,
{
    let h = reqs[i].hostname@;
    let k = m - 1;
    assert(pull_outcome(states[k], config, reqs[k], times[k], hours[k], states[k + 1], resps[k]));
    if k > i {
        lemma_rotation_stamp_along(states, config, reqs, times, hours, resps, i, k);
        assert(times[i] <= times[k]);
        if states[m].leases().contains_key(h) && reqs[k].hostname@ != h {
            lemma_rotation_time_kept(states[k], config, reqs[k], times[k], hours[k], states[m], resps[k], h);
        }
    }
}

/// Two well-formed states with the same snapshot data have the same leases and keys.
pub proof fn lemma_same_data_same_maps(s: LighthouseState, l: LighthouseState)
    requires
        s.wf(),
        l.wf(),
        state_data(l) == state_data(s),
    ensures
        l.leases() == s.leases(),
        l.keys() == s.keys(),
        l.complete() == s.complete(),
{
    let d = state_data(s);
    assert(l.nodes@.len() == s.nodes@.len() && l.preshared_keys@.len() == s.preshared_keys@.len()) by {
        assert(state_data(l).nodes.len() == d.nodes.len());
        assert(state_data(l).keys.len() == d.keys.len());
    }
    assert forall|i: int| 0 <= i < s.nodes@.len() implies (#[trigger] l.nodes@[i])@ == s.nodes@[i]@ by {
        assert(state_data(l).nodes[i] == d.nodes[i]);
    }
    assert forall|i: int| 0 <= i < s.preshared_keys@.len() implies (#[trigger] l.preshared_keys@[i]).peers@
        == s.preshared_keys@[i].peers@ && l.preshared_keys@[i].key@ == s.preshared_keys@[i].key@ by {
        assert(state_data(l).keys[i] == d.keys[i]);
    }
    crate::state::lemma_lease_map_all(s.nodes@);
    crate::state::lemma_lease_map_all(l.nodes@);
    crate::state::lemma_key_map_all(s.preshared_keys@);
    crate::state::lemma_key_map_all(l.preshared_keys@);
    assert(l.leases() =~= s.leases()) by {
        assert forall|h: Seq<char>| #[trigger] l.leases().contains_key(h) == s.leases().contains_key(h) by {
            if has_node(l.nodes@, h) {
                let i = choose|i: int| 0 <= i < l.nodes@.len() && (#[trigger] l.nodes@[i]).hostname@ == h;
                assert(s.nodes@[i].hostname@ == h);
            }
            if has_node(s.nodes@, h) {
                let i = choose|i: int| 0 <= i < s.nodes@.len() && (#[trigger] s.nodes@[i]).hostname@ == h;
                assert(l.nodes@[i].hostname@ == h);
            }
        }
        assert forall|h: Seq<char>| #[trigger] l.leases().contains_key(h) implies l.leases()[h] == s.leases()[h] by {
            let i = choose|i: int| 0 <= i < l.nodes@.len() && (#[trigger] l.nodes@[i]).hostname@ == h;
            assert(s.nodes@[i].hostname@ == h);
        }
    }
    assert(l.keys() =~= s.keys()) by {
        assert forall|p: (Seq<char>, Seq<char>)| #[trigger] l.keys().contains_key(p) == s.keys().contains_key(p) by {
            if has_pair(l.preshared_keys@, p) {
                let i = choose|i: int| 0 <= i < l.preshared_keys@.len() && (#[trigger] l.preshared_keys@[i]).peers@ == p;
                assert(s.preshared_keys@[i].peers@ == p);
            }
            if has_pair(s.preshared_keys@, p) {
                let i = choose|i: int| 0 <= i < s.preshared_keys@.len() && (#[trigger] s.preshared_keys@[i]).peers@ == p;
                assert(l.preshared_keys@[i].peers@ == p);
            }
        }
        assert forall|p: (Seq<char>, Seq<char>)| #[trigger] l.keys().contains_key(p) implies l.keys()[p] == s.keys()[p] by {
            let i = choose|i: int| 0 <= i < l.preshared_keys@.len() && (#[trigger] l.preshared_keys@[i]).peers@ == p;
            assert(s.preshared_keys@[i].peers@ == p);
        }
    }
}

/// Restart continuity: a state read back from the snapshot of a state in which every two
/// registered nodes share a key has the same leases and keys, and a pull by a registered node
/// then issues no key: every key it holds, and every key in its answer, is the saved one.
pub proof fn lemma_restart_continuity(
    saved: LighthouseState,
    loaded: LighthouseState,
    config: LighthouseConfig,
    req: NodePullRequest,
    now: u64,
    hour: u32,
    s1: LighthouseState,
    resp: NodePullResponse,
)
    requires
        saved.wf(),
        saved.complete(),
        loaded.wf(),
        state_data(loaded) == state_data(saved),
        saved.leases().contains_key(req.hostname@),
        pull_outcome(loaded, config, req, now, hour, s1, resp),
    ensures
        loaded.leases() == saved.leases(),
        loaded.keys() == saved.keys(),
        forall|p: (Seq<char>, Seq<char>)|
            #[trigger] s1.keys().contains_key(p) ==> saved.keys().contains_key(p) && s1.keys()[p]
                == saved.keys()[p],
        forall|x: int|
            0 <= x < resp.peers@.len() ==> #[trigger] resp.peers@[x].preshared_key@ == saved.psk_of(
                req.hostname@,
                resp.peers@[x].hostname@,
            ),
{
    let a = req.hostname@;
    lemma_same_data_same_maps(saved, loaded);
    assert forall|p: (Seq<char>, Seq<char>)| #[trigger] s1.keys().contains_key(p) implies saved.keys().contains_key(
        p,
    ) && s1.keys()[p] == saved.keys()[p] by {
        if !loaded.keys().contains_key(p) {
            let j = choose|j: int| 0 <= j < s1.preshared_keys@.len() && (#[trigger] s1.preshared_keys@[j]).peers@ == p;
            assert(is_canonical(p) && has_node(s1.nodes@, p.0) && has_node(s1.nodes@, p.1));
            let k = if p.0 == a { p.1 } else { p.0 };
            assert(s1.leases().contains_key(k));
            assert(loaded.leases().contains_key(k));
            lemma_canonical_pair_symmetric(a, k);
            assert(canonical_pair(a, k) == p);
            assert(loaded.keys().contains_key(canonical_pair(a, k)));
        }
    }
    assert forall|x: int| 0 <= x < resp.peers@.len() implies #[trigger] resp.peers@[x].preshared_key@
        == saved.psk_of(a, resp.peers@[x].hostname@) by {
        lemma_entry_key(s1.nodes@, a, s1.keys(), resp, x);
        let k = resp.peers@[x].hostname@;
        assert(s1.leases().contains_key(k));
    }
}

} // verus!
