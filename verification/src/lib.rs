//! Inertia: a swarm protocol that carries data over radio, sound and name
//! lookups, and keeps a distributed memory with fountain codes.

pub mod consensus;
pub mod crypto;
pub mod encoding;
pub mod node;
pub mod transport;
pub mod wire;

use vstd::prelude::*;

verus! {

/// Protocol version.
pub const PROTOCOL_VERSION: &'static str = "0.1.0";
/// Protocol name.
pub const PROTOCOL_NAME: &'static str = "inertia";
/// Time of the genesis block: 2024-01-01 00:00:00 UTC.
pub const GENESIS_TIMESTAMP: u64 = 1704067200;
/// Largest block, in bytes.
pub const MAX_BLOCK_SIZE: usize = 1048576;
/// Largest transaction, in bytes.
pub const MAX_TRANSACTION_SIZE: usize = 32768;
/// Magic bytes that open protocol frames ("INER").
pub const MAGIC_BYTES: [u8; 4] = [0x49, 0x4E, 0x45, 0x52];
/// Default bridge port.
pub const DEFAULT_BRIDGE_PORT: u16 = 18888;
/// Default mesh port.
pub const DEFAULT_MESH_PORT: u16 = 18889;
/// Token ticker.
pub const TOKEN_SYMBOL: &'static str = "INERT";
/// Decimal places of the token.
pub const TOKEN_DECIMALS: u8 = 12;
/// Smallest validator stake (one token).
pub const MIN_VALIDATOR_STAKE: u64 = 1_000_000_000_000;

#[verifier::external_type_specification]
#[verifier::external_body]
pub struct ExIoError(std::io::Error);

/// Errors of the library.
#[derive(Debug)]
pub enum InertiaError {
    Transport(String),
    Consensus(String),
    Storage(String),
    Crypto(String),
    Network(String),
    Config(String),
    Io(std::io::Error),
    InvalidSignature,
    InvalidBlock(String),
    NotInitialized,
    AlreadyRunning,
}

/// Initializes the library. Nothing here can fail.
pub fn init() -> (r: Result<(), InertiaError>)
    ensures
        r is Ok,
{
    Ok(())
}

/// Returns the library version.
pub fn version() -> (v: &'static str)
    ensures
        v@ == PROTOCOL_VERSION@,
{
    PROTOCOL_VERSION
}

} // verus!
