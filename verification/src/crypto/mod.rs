pub mod digest;
pub mod ed25519;
pub mod keys;
