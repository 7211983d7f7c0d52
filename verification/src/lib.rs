pub mod bytes;
pub mod codec;
pub mod crypto;
pub mod enclave;
pub mod envelope;
pub mod error;
pub mod ffi;
pub mod group;
pub mod handshake;
pub mod identity;
pub mod inbox;
pub mod kdf;
pub mod mesh;
pub mod net;
pub mod pqkem;
pub mod ratchet;
pub mod relay;
pub mod safety;
pub mod session;
pub mod transport;
pub mod wire;
