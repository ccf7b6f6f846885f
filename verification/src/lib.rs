//! A verified core for the Ivy software bus: the wire format of Ivy
//! messages, the UDP announce protocol and the state machine that the bus
//! thread runs.
pub mod ivyerror;
pub mod wire;
pub mod ivy_messages;
pub mod pattern;
pub mod peer;
pub mod announce;
pub mod bus;
