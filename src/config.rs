use vstd::prelude::*;

use crate::text::{decimal, push_decimal};

verus! {

/// Lighthouse configuration.
#[derive(Debug)]
pub struct LighthouseConfig {
    /// Key used by the lighthouse to authenticate the nodes.
    pub lighthouse_key: String,
    /// Key used by nodes to authenticate with the lighthouse server.
    pub node_key: String,
    /// Port to listen on for incoming connections.
    pub port: u16,
    /// Host to bind to for incoming connections.
    pub bindhost: String,
    /// Interval in seconds to rotate wireguard private, public and preshared keys.
    pub key_rotation_interval_seconds: u64,
    /// Time of day (in min/max hours) to rotate wireguard private, public and preshared keys.
    pub key_rotation_tod: (u8, u8),
    /// The time in seconds to wait before a node is considered offline.
    pub node_timeout_seconds: u64,
    /// State file to store the lighthouse's state.
    pub state_file: String,
}

impl LighthouseConfig {
    /// The address to listen on: `bindhost:port`.
    pub fn get_listen_addr(&self) -> (r: String)
        ensures
            r@ == self.bindhost@ + ":"@ + decimal(self.port as nat),
    {
        let mut addr = self.bindhost.clone();
        addr.append(":");
        push_decimal(&mut addr, self.port as u64);
        addr
    }
}

/// Configuration file of a lighthouse.
#[derive(Debug)]
pub struct LighthouseConfigFile {
    /// Lighthouse configuration.
    pub lighthouse: LighthouseConfig,
}

} // verus!
