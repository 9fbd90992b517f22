//! A small publish/subscribe broker core: the line codec, the shared-secret
//! authentication check, the subscription registry and the per-connection control logic.
//! Sockets, threads and timers live with the caller.

pub mod codec;
pub mod secret;
pub mod registry;
pub mod worker;
