//! Core of a TCP tunnelling service: length-delimited JSON message framing,
//! HMAC challenge/response authentication, per-user admission accounting,
//! public-port allocation, and the control-protocol state machines shared by
//! the tunnel server and the tunnel client.

pub mod admission;
pub mod auth;
pub mod client;
pub mod hexcode;
pub mod ids;
pub mod instances;
pub mod jsontext;
pub mod manage;
pub mod msg;
pub mod oracle;
pub mod ports;
pub mod rendezvous;
pub mod server;
pub mod timeouts;
pub mod utf8check;
pub mod wire;
