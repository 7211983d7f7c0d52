//! A thin, zero-plaintext store-and-forward relay.
//!
//! The relay does two jobs and nothing more: a **prekey directory** that
//! stores each user's signed bundle and dispenses one one-time prekey per
//! fetch, and an **offline mailbox** that queues opaque, end-to-end-encrypted
//! messages until the recipient polls for them. It can read none of the
//! message content.
pub mod protocol;
pub mod server;
pub mod store;
