//! A verified core for a BACnet/IP protocol stack.
//!
//! The crate covers the four layers that turn UDP datagram octets into
//! structured application protocol data units and back:
//! the virtual link layer framing (`bacnet_ip`), the network layer
//! (`network`), the APDU header and tagged-value codecs (`parse` and
//! `serialise` over the types in `ast` and the octet grammar in `wire`),
//! and the Who-Is / I-Am service pair (`service`).
//!
//! Every codec is specified against a mathematical model of the wire
//! format and proved to decode exactly what it encodes.

pub mod ast;
pub mod bacnet_ip;
pub mod network;
pub mod object;
pub mod parse;
pub mod serialise;
pub mod service;
pub mod wire;
