//! The node: its keys, configuration and run state.

use vstd::prelude::*;
use crate::crypto::keys::KeyPair;
use crate::node::config::NodeConfig;
use crate::InertiaError;

verus! {

/// A node of the swarm.
pub struct InertiaNode {
    keypair: KeyPair,
    config: NodeConfig,
    running: bool,
}

impl InertiaNode {
    /// The node is running.
    pub closed spec fn is_running(&self) -> bool {
        self.running
    }

    /// The node's keys.
    pub closed spec fn keypair_spec(&self) -> KeyPair {
        self.keypair
    }

    /// The node's configuration.
    pub closed spec fn config_spec(&self) -> NodeConfig {
        self.config
    }

    /// A stopped node with the given keys and configuration.
    pub fn new(keypair: KeyPair, config: NodeConfig) -> (n: Self)
        ensures
            !n.is_running(),
            n.keypair_spec() == keypair,
            n.config_spec() == config,
    {
        InertiaNode { keypair, config, running: false }
    }

    /// Prepares the node; nothing here can fail.
    pub fn init(&mut self) -> (r: Result<(), InertiaError>)
        ensures
            r is Ok,
            *final(self) == *old(self),
    {
        Ok(())
    }

    /// Starts the node.
    pub fn start(&mut self) -> (r: Result<(), InertiaError>)
        ensures
            r is Ok,
            final(self).is_running(),
            final(self).keypair_spec() == old(self).keypair_spec(),
            final(self).config_spec() == old(self).config_spec(),
    {
        self.running = true;
        Ok(())
    }

    /// Stops the node.
    pub fn stop(&mut self) -> (r: Result<(), InertiaError>)
        ensures
            r is Ok,
            !final(self).is_running(),
            final(self).keypair_spec() == old(self).keypair_spec(),
            final(self).config_spec() == old(self).config_spec(),
    {
        self.running = false;
        Ok(())
    }

    /// The node's keys.
    pub fn keypair(&self) -> (k: &KeyPair)
        ensures
            *k == self.keypair_spec(),
    {
        &self.keypair
    }

    /// The node's configuration.
    pub fn config(&self) -> (c: &NodeConfig)
        ensures
            *c == self.config_spec(),
    {
        &self.config
    }

    /// The node is running.
    pub fn running(&self) -> (b: bool)
        ensures
            b == self.is_running(),
    {
        self.running
    }
}

} // verus!
