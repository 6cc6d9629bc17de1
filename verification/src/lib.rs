//! Request routing core of an RPC client for a changing fleet of liteservers:
//! request and response correlation, a shared exclusive-access adapter, and
//! membership discovery.

pub mod discover;
pub mod ident;
pub mod request;
pub mod shared;
pub mod wire;
