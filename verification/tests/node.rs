use inertia::crypto::keys::KeyPair;
use inertia::node::config::NodeConfig;
use inertia::node::inertia_node::InertiaNode;
use inertia::transport::immunity::{hash_diff, status_or_healthy, NodeStatus, SelfState};
use inertia::transport::metabolism::{MetabolismStats, Temperature};
use inertia::{init, version, InertiaError, MAGIC_BYTES, PROTOCOL_VERSION};

#[test]
fn library_basics() {
    assert!(init().is_ok());
    assert_eq!(version(), PROTOCOL_VERSION);
    assert_eq!(&MAGIC_BYTES, b"INER");
    let e = InertiaError::InvalidBlock("x".to_string());
    assert!(matches!(e, InertiaError::InvalidBlock(_)));
}

#[test]
fn default_config() {
    let c = NodeConfig::default();
    assert_eq!(c.datadir, std::path::PathBuf::from("./.inertia"));
    assert_eq!(c.node_name, "inertia-node");
    assert_eq!(c.mode, "seed");
    assert!(c.enable_bluetooth && c.enable_wifi_stego);
    assert!(!c.enable_lora && !c.enable_dns_spore && !c.enable_ultrasound && !c.enable_astro);
    assert_eq!(c.bridge_port, 18888);
    assert!(c.bootstrap_peers.is_empty());
}

#[test]
fn node_starts_and_stops() {
    let mut n = InertiaNode::new(KeyPair::generate(), NodeConfig::default());
    assert!(!n.running());
    assert!(n.init().is_ok());
    assert!(n.start().is_ok());
    assert!(n.running());
    assert!(n.stop().is_ok());
    assert!(!n.running());
}

#[test]
fn fingerprint_distance() {
    assert_eq!(hash_diff(&[0u8; 32], &[0u8; 32]), 0);
    assert_eq!(hash_diff(&[10u8; 32], &[3u8; 32]), 7 * 32);
    assert_eq!(hash_diff(&[3u8; 32], &[10u8; 32]), 7 * 32);
    assert_eq!(hash_diff(&[255u8; 32], &[0u8; 32]), 255 * 32);
}

#[test]
fn unknown_nodes_are_healthy() {
    assert_eq!(status_or_healthy(None), NodeStatus::Healthy);
    assert_eq!(status_or_healthy(Some(NodeStatus::Quarantined)), NodeStatus::Quarantined);
}

#[test]
fn hibernation_ends_on_time() {
    let mut s = SelfState::new();
    assert!(!s.is_hibernating(0));
    s.enter_hibernation(100);
    assert_eq!(s.status, NodeStatus::Hibernating);
    assert!(s.is_hibernating(3699));
    assert!(!s.is_hibernating(3700));
    assert_eq!(s.status, NodeStatus::Healthy);
    assert_eq!(s.hibernation_until, None);
}

#[test]
fn metabolism_stats_count_classes() {
    let st = MetabolismStats::from_classes(
        &[Temperature::Hot, Temperature::Cold, Temperature::Hot, Temperature::Fossil, Temperature::Warm],
        2,
        30,
        1,
    );
    assert_eq!(st.total_blocks, 5);
    assert_eq!(st.hot_blocks, 2);
    assert_eq!(st.warm_blocks, 1);
    assert_eq!(st.cold_blocks, 1);
    assert_eq!(st.fossil_blocks, 2);
    assert_eq!(st.total_tokens_burned, 30);
    assert_eq!(st.pending_rewarms, 1);
}
