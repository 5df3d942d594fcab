//! Node configuration.

use vstd::prelude::*;
use std::path::PathBuf;

verus! {

#[verifier::external_type_specification]
#[verifier::external_body]
pub struct ExPathBuf(std::path::PathBuf);

/// Calls `PathBuf::from` on a string.
/// Trusted: nothing is stated of the path (the type is opaque here).
#[verifier::external_body]
fn path_from(s: &str) -> (p: PathBuf) {
    PathBuf::from(s)
}

/// What a node runs with.
pub struct NodeConfig {
    pub datadir: PathBuf,
    pub node_name: String,
    pub mode: String,
    pub enable_bluetooth: bool,
    pub enable_wifi_stego: bool,
    pub enable_ultrasound: bool,
    pub enable_dns_spore: bool,
    pub enable_lora: bool,
    pub enable_astro: bool,
    pub bridge_port: u16,
    pub bootstrap_peers: Vec<String>,
}

impl Default for NodeConfig {
    /// A seed node named `inertia-node` with data in `./.inertia`, Bluetooth and
    /// Wi-Fi names on, the other transports off, bridge port 18888, no peers.
    fn default() -> (c: Self)
        ensures
            c.node_name@ == "inertia-node"@,
            c.mode@ == "seed"@,
            c.enable_bluetooth,
            c.enable_wifi_stego,
            !c.enable_ultrasound,
            !c.enable_dns_spore,
            !c.enable_lora,
            !c.enable_astro,
            c.bridge_port == 18888,
            c.bootstrap_peers@.len() == 0,
    {
        NodeConfig {
            datadir: path_from("./.inertia"),
            node_name: "inertia-node".to_string(),
            mode: "seed".to_string(),
            enable_bluetooth: true,
            enable_wifi_stego: true,
            enable_ultrasound: false,
            enable_dns_spore: false,
            enable_lora: false,
            enable_astro: false,
            bridge_port: 18888,
            bootstrap_peers: Vec::new(),
        }
    }
}

} // verus!
