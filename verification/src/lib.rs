//! Client side of the Hysteria2 proxy protocol, as verified code without I/O.

pub mod addr;
pub mod auth;
pub mod brutal;
pub mod buffer;
pub mod client;
pub mod config;
pub mod defrag;
pub mod endpoint;
pub mod error;
pub mod fragment;
pub mod obfs;
pub mod padding;
pub mod ports;
pub mod random;
pub mod reconnect;
pub mod socket;
pub mod stream;
pub mod tcp;
pub mod text;
pub mod time;
pub mod tls;
pub mod udp;
pub mod udp_message;
pub mod wire;

pub use brutal::{Brutal, BrutalFactory};
pub use client::HysteriaClient;
pub use config::{Config, QuicParams};
pub use error::Error;
pub use reconnect::ReconnectableClient;
pub use stream::DuplexStream;
pub use udp::UdpSession;
