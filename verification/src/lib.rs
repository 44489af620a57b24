//! Rule matching and DNS64 behaviour of the `weirdns` forwarder.

pub mod addr;
pub mod config;
pub mod dns;
pub mod dns64;
pub mod domain;
pub mod files;
pub mod glob;
pub mod instance;
pub mod loader;
pub mod message;
pub mod notify;
pub mod selection;
pub mod text;
pub mod transport;
pub mod trie;
pub mod wire;
