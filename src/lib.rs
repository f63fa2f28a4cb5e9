//! Coordination core of an ice-cream order pipeline: a reliable-datagram
//! layer with bounded retries, the leader's order-dispatch engine with its
//! stock table, the robot ring's join/election state machine, and the text
//! codec shared by every endpoint. Every component is a deterministic state
//! machine: callers feed it events and the current time, and it appends the
//! datagrams to send to an outbox.
pub mod log;
pub mod status_order;
pub mod addr;
pub mod text;
pub mod ack;
pub mod ack_manager;
pub mod ice_cream;
pub mod protocol;
pub mod order;
pub mod record;
pub mod codec;
pub mod leader_order_processing;
pub mod chance;
pub mod robot;
pub mod interface;
pub mod gateway;
