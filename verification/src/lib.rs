//! Relay engine for the Wayland wire protocol.
//!
//! The engine sits between one client connection and the compositor it talks
//! to. It frames the byte streams of both directions into messages, keeps the
//! table of object identifiers, lets an interception hook pass, rewrite, drop
//! or add messages, and hands the frames to send back to the caller, together
//! with every file descriptor that has to travel or be closed.
//!
//! The crate performs no I/O. Its caller owns the sockets, feeds what it read
//! and writes what the engine queued.
//!
//! - [`wire`]: little-endian words and alignment.
//! - [`message`]: messages and their typed arguments.
//! - [`codec`]: frames to messages and back.
//! - [`registry`]: the table of object identifiers.
//! - [`descriptors`]: which descriptors a hook's answer claims and which are left.
//! - [`hook`]: what an interception hook may answer.
//! - [`state`]: the session as a state machine over plain values, with its laws.
//! - [`relay`]: the session that runs.
//! - [`signature`]: argument kinds written as letters.
//! - [`endpoint`]: the paths of the sockets.

pub mod codec;
pub mod descriptors;
pub mod endpoint;
pub mod hook;
pub mod message;
pub mod registry;
pub mod relay;
pub mod signature;
pub mod state;
pub mod wire;
