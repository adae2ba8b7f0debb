//! A minimal MQTT v5 client for memory-constrained targets: a codec for the
//! wire format and a session state machine, working on byte slices that the
//! caller hands in and on buffers whose size is fixed at compile time. The
//! transport is the caller's: the session only builds the bytes to send and
//! takes in the bytes that were received.
//!
//! - [`wire`] states the encodings: big-endian integers, length-prefixed
//!   spans and variable-byte integers.
//! - [`reader_writer`] reads and writes them with a cursor over a borrowed
//!   buffer.
//! - [`flags`] is an 8-bit flag set.
//! - [`packet`] holds the catalog of packet kinds, the packet-identifier
//!   counter and the layout of the packets a client sends.
//! - [`inbound`] states what a stream of received packets asks of a session.
//! - [`client`] is the session itself.

pub mod client;
pub mod flags;
pub mod inbound;
pub mod packet;
pub mod reader_writer;
pub mod wire;

pub use client::{MqttClient, MqttError, MqttResult, MqttState};
pub use packet::{ControlPacketType, MqttProperty, MqttQoS, PacketIdCounter};
