use vstd::prelude::*;

use crate::messages::{NodeMetricsPushRequest, NodeMetricsPushRequestPeer};
use crate::text::{decimal, push_decimal, push_signed_decimal, signed_decimal};

verus! {

/// A collected peer metric of a node.
#[derive(Debug, Clone)]
pub struct LighthouseMetricsPeer {
    /// Hostname of the peer.
    pub hostname: String,
    /// Latest handshake of the peer.
    pub latest_handshake: u64,
    /// Received bytes of the peer.
    pub transfer_rx: i64,
    /// Sent bytes of the peer.
    pub transfer_tx: i64,
}

/// The collected metrics of a node.
#[derive(Debug, Clone)]
pub struct LighthouseCollectedMetric {
    /// Hostname of the node of this collected metric.
    pub hostname: String,
    /// The interface name of the node of this collected metric.
    pub interface: String,
    /// The udp port number that wireguard listens on.
    pub listening_port: u16,
    /// Information about connected peers.
    pub peers: Vec<LighthouseMetricsPeer>,
}

/// A peer metric as plain values.
pub struct PeerMetricView {
    pub hostname: Seq<char>,
    pub latest_handshake: u64,
    pub transfer_rx: i64,
    pub transfer_tx: i64,
}

/// The metrics of one node as plain values.
pub struct MetricView {
    pub hostname: Seq<char>,
    pub interface: Seq<char>,
    pub listening_port: u16,
    pub peers: Seq<PeerMetricView>,
}

impl LighthouseMetricsPeer {
    pub open spec fn view(&self) -> PeerMetricView {
        PeerMetricView {
            hostname: self.hostname@,
            latest_handshake: self.latest_handshake,
            transfer_rx: self.transfer_rx,
            transfer_tx: self.transfer_tx,
        }
    }
}

impl LighthouseCollectedMetric {
    pub open spec fn view(&self) -> MetricView {
        MetricView {
            hostname: self.hostname@,
            interface: self.interface@,
            listening_port: self.listening_port,
            peers: self.peers@.map_values(|p: LighthouseMetricsPeer| p@),
        }
    }
}

pub open spec fn peer_metric_of(p: NodeMetricsPushRequestPeer) -> PeerMetricView {
    PeerMetricView {
        hostname: p.hostname@,
        latest_handshake: p.latest_handshake,
        transfer_rx: p.transfer_rx,
        transfer_tx: p.transfer_tx,
    }
}

impl NodeMetricsPushRequest {
    /// What the lighthouse keeps of a metrics push.
    pub open spec fn collected(&self) -> MetricView {
        MetricView {
            hostname: self.hostname@,
            interface: self.interface@,
            listening_port: self.listening_port,
            peers: self.peers@.map_values(|p: NodeMetricsPushRequestPeer| peer_metric_of(p)),
        }
    }
}

/// The three series of one peer of node `h`.
pub open spec fn peer_lines(h: Seq<char>, p: PeerMetricView) -> Seq<char> {
    "lighthouse_peer_latest_handshake{hostname=\""@ + h + "\",peer_hostname=\""@ + p.hostname
        + "\"} "@ + decimal(p.latest_handshake as nat) + "\n"@
        + "lighthouse_peer_transfer_rx{hostname=\""@ + h + "\",peer_hostname=\""@ + p.hostname
        + "\"} "@ + signed_decimal(p.transfer_rx as int) + "\n"@
        + "lighthouse_peer_transfer_tx{hostname=\""@ + h + "\",peer_hostname=\""@ + p.hostname
        + "\"} "@ + signed_decimal(p.transfer_tx as int) + "\n"@
}

pub open spec fn peers_text(h: Seq<char>, ps: Seq<PeerMetricView>) -> Seq<char>
    decreases ps.len(),
{
    if ps.len() == 0 {
        seq![]
    } else {
        peers_text(h, ps.drop_last()) + peer_lines(h, ps.last())
    }
}

/// The exposition of one node: its `up` series, then the series of each of its peers.
pub open spec fn node_text(m: MetricView) -> Seq<char> {
    "lighthouse_node_up{hostname=\""@ + m.hostname + "\"} 1\n"@ + peers_text(m.hostname, m.peers)
}

pub open spec fn metrics_text(ms: Seq<MetricView>) -> Seq<char>
    decreases ms.len(),
{
    if ms.len() == 0 {
        seq![]
    } else {
        metrics_text(ms.drop_last()) + node_text(ms.last())
    }
}

/// Index of the metrics of `hostname`, if any.
fn find_metric(metrics: &Vec<LighthouseCollectedMetric>, hostname: &String) -> (r: Option<usize>)
    ensures
        r is Some ==> r->0 < metrics@.len() && metrics@[r->0 as int].hostname@ == hostname@,
        r is None ==> forall|j: int| 0 <= j < metrics@.len() ==> (#[trigger] metrics@[j]).hostname@ != hostname@,
{
    let mut k: usize = 0;
    while k < metrics.len()
        invariant
            k <= metrics.len(),
            forall|j: int| 0 <= j < k ==> (#[trigger] metrics@[j]).hostname@ != hostname@,
        decreases metrics.len() - k,
    {
        if metrics[k].hostname == *hostname {
            return Some(k);
        }
        k += 1;
    }
    None
}

/// Appends the three series of one peer of node `h`.
#[verifier::rlimit(50)]
fn push_peer_lines(export: &mut String, h: &String, peer: &LighthouseMetricsPeer)
    ensures
        final(export)@ == old(export)@ + peer_lines(h@, peer@),
{
    export.append("lighthouse_peer_latest_handshake{hostname=\"");
    export.append(h.as_str());
    export.append("\",peer_hostname=\"");
    export.append(peer.hostname.as_str());
    export.append("\"} ");
    push_decimal(export, peer.latest_handshake);
    export.append("\n");
    export.append("lighthouse_peer_transfer_rx{hostname=\"");
    export.append(h.as_str());
    export.append("\",peer_hostname=\"");
    export.append(peer.hostname.as_str());
    export.append("\"} ");
    push_signed_decimal(export, peer.transfer_rx);
    export.append("\n");
    export.append("lighthouse_peer_transfer_tx{hostname=\"");
    export.append(h.as_str());
    export.append("\",peer_hostname=\"");
    export.append(peer.hostname.as_str());
    export.append("\"} ");
    push_signed_decimal(export, peer.transfer_tx);
    export.append("\n");
    assert(final(export)@ =~= old(export)@ + peer_lines(h@, peer@));
}

/// The collected metrics of all nodes, one entry per hostname.
pub struct LighthouseMetrics {
    metrics: Vec<LighthouseCollectedMetric>,
}

impl LighthouseMetrics {
    /// The entries, in the order they are exported.
    pub closed spec fn entries(&self) -> Seq<MetricView> {
        self.metrics@.map_values(|m: LighthouseCollectedMetric| m@)
    }

    /// Hostnames are unique.
    pub open spec fn wf(&self) -> bool {
        forall|i: int, j: int|
            0 <= i < self.entries().len() && 0 <= j < self.entries().len() && i != j
                ==> (#[trigger] self.entries()[i]).hostname != (#[trigger] self.entries()[j]).hostname
    }

    /// The metrics by hostname.
    pub open spec fn view(&self) -> Map<Seq<char>, MetricView> {
        Map::new(
            |h: Seq<char>| exists|i: int| 0 <= i < self.entries().len() && (#[trigger] self.entries()[i]).hostname == h,
            |h: Seq<char>|
                self.entries()[choose|i: int|
                    0 <= i < self.entries().len() && (#[trigger] self.entries()[i]).hostname == h],
        )
    }

    /// No metrics yet.
    pub fn new() -> (r: Self)
        ensures
            r.wf(),
            r@ == Map::<Seq<char>, MetricView>::empty(),
            r.entries().len() == 0,
    {
        let r = LighthouseMetrics { metrics: Vec::new() };
        assert(r.entries() =~= Seq::<MetricView>::empty());
        assert(r@ =~= Map::<Seq<char>, MetricView>::empty());
        r
    }

    /// Stores the metrics of one node, replacing what it pushed before.
    pub fn upsert_metrics(&mut self, request: &NodeMetricsPushRequest)
        requires
            old(self).wf(),
        ensures
            final(self).wf(),
            final(self)@ == old(self)@.insert(request.hostname@, request.collected()),
    {
        let ghost old_entries = self.entries();
        let mut peers: Vec<LighthouseMetricsPeer> = Vec::new();
        let mut i: usize = 0;
        while i < request.peers.len()
            invariant
                i <= request.peers.len(),
                peers@.len() == i,
                forall|j: int| 0 <= j < i ==> (#[trigger] peers@[j])@ == peer_metric_of(request.peers@[j]),
            decreases request.peers.len() - i,
        {
            let peer = &request.peers[i];
            peers.push(
                LighthouseMetricsPeer {
                    hostname: peer.hostname.clone(),
                    latest_handshake: peer.latest_handshake,
                    transfer_rx: peer.transfer_rx,
                    transfer_tx: peer.transfer_tx,
                },
            );
            i += 1;
        }
        assert(peers@.map_values(|p: LighthouseMetricsPeer| p@) =~= request.peers@.map_values(
            |p: NodeMetricsPushRequestPeer| peer_metric_of(p),
        ));
        let metric = LighthouseCollectedMetric {
            hostname: request.hostname.clone(),
            interface: request.interface.clone(),
            listening_port: request.listening_port,
            peers,
        };
        assert(metric@ == request.collected());
        let found = find_metric(&self.metrics, &request.hostname);
        let k = match found {
            Some(k) => k,
            None => self.metrics.len(),
        };
        assert(forall|j: int| 0 <= j < self.metrics@.len() ==> #[trigger] old_entries[j] == self.metrics@[j]@);
        let ghost pos = k as int;
        if k < self.metrics.len() {
            self.metrics[k] = metric;
        } else {
            self.metrics.push(metric);
        }
        let ghost ne = self.entries();
        assert(ne.len() == if pos < old_entries.len() { old_entries.len() } else { old_entries.len() + 1 });
        assert(ne[pos] == request.collected());
        assert(forall|j: int| 0 <= j < ne.len() && j != pos ==> ne[j] == old_entries[j]);
        assert(pos < old_entries.len() ==> old_entries[pos].hostname == request.hostname@);
        assert(forall|j: int| 0 <= j < old_entries.len() && j != pos ==> (#[trigger] old_entries[j]).hostname != request.hostname@);
        assert(self.wf());
        let ghost target = old(self)@.insert(request.hostname@, request.collected());
        assert(self@ =~= target) by {
            assert forall|hh: Seq<char>| #[trigger] self@.contains_key(hh) == target.contains_key(hh) by {
                if self@.contains_key(hh) && hh != request.hostname@ {
                    let j = choose|j: int| 0 <= j < ne.len() && (#[trigger] ne[j]).hostname == hh;
                    assert(old_entries[j] == ne[j]);
                }
                if old(self)@.contains_key(hh) && hh != request.hostname@ {
                    let j = choose|j: int| 0 <= j < old_entries.len() && (#[trigger] old_entries[j]).hostname == hh;
                    assert(old_entries[j] == ne[j]);
                }
                if hh == request.hostname@ {
                    assert(ne[pos].hostname == hh);
                }
            }
            assert forall|hh: Seq<char>| #[trigger] self@.contains_key(hh) implies self@[hh] == target[hh] by {
                let j = choose|j: int| 0 <= j < ne.len() && (#[trigger] ne[j]).hostname == hh;
                if hh != request.hostname@ {
                    let j2 = choose|j2: int| 0 <= j2 < old_entries.len() && (#[trigger] old_entries[j2]).hostname == hh;
                    assert(old_entries[j] == ne[j]);
                    assert(j == j2);
                } else {
                    assert(j == pos);
                }
            }
        }
    }

    /// The Prometheus exposition: per node a `lighthouse_node_up` series, then for each of its
    /// peers the latest handshake and the bytes received and sent.
    pub fn export_prometheus(&self) -> (r: String)
        ensures
            r@ == metrics_text(self.entries()),
    {
        let mut export = String::new();
        let mut i: usize = 0;
        while i < self.metrics.len()
            invariant
                i <= self.metrics.len(),
                export@ == metrics_text(self.entries().take(i as int)),
            decreases self.metrics.len() - i,
        {
            let metric = &self.metrics[i];
            let ghost before = export@;
            export.append("lighthouse_node_up{hostname=\"");
            export.append(metric.hostname.as_str());
            export.append("\"} 1\n");
            assert(export@ =~= before + "lighthouse_node_up{hostname=\""@ + metric.hostname@ + "\"} 1\n"@);
            let mut j: usize = 0;
            let ghost ps = metric@.peers;
            assert(ps.take(0) =~= Seq::<PeerMetricView>::empty());
            while j < metric.peers.len()
                invariant
                    j <= metric.peers.len(),
                    ps == metric@.peers,
                    export@ == before + "lighthouse_node_up{hostname=\""@ + metric.hostname@
                        + "\"} 1\n"@ + peers_text(metric.hostname@, ps.take(j as int)),
                decreases metric.peers.len() - j,
            {
                let peer = &metric.peers[j];
                push_peer_lines(&mut export, &metric.hostname, peer);
                assert(ps.take(j + 1).drop_last() =~= ps.take(j as int));
                assert(ps.take(j + 1).last() == peer@);
                j += 1;
                assert(export@ =~= before + "lighthouse_node_up{hostname=\""@ + metric.hostname@
                    + "\"} 1\n"@ + peers_text(metric.hostname@, ps.take(j as int)));
            }
            assert(ps.take(j as int) =~= ps);
            assert(self.entries().take(i + 1).drop_last() =~= self.entries().take(i as int));
            assert(self.entries().take(i + 1).last() == metric@);
            i += 1;
            assert(export@ =~= metrics_text(self.entries().take(i as int)));
        }
        assert(self.entries().take(i as int) =~= self.entries());
        export
    }
}

} // verus!
