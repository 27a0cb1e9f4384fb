//! Bookkeeping, rules and wire format of a chunk generation server.
//!
//! The server generates decorated chunks of Minecraft worlds for its clients.
//! This library decides; what it decides on (sockets, threads, locks, clocks
//! and the generator itself) belongs to the program around it.
//!
//! - [`transport`], [`protocol`], [`session`]: where the server listens, what
//!   goes over the wire, and how one connection is served.
//! - [`contexts`]: one world generation context per seed.
//! - [`neighborhood`], [`holders`], [`decoration`], [`target`], [`generation`]:
//!   how a chunk is generated and decorated together with its neighbors.
//! - [`service`]: what holds across requests.
//! - [`sections`], [`buffer`]: the bytes that leave the server.
pub mod big_endian;
pub mod buffer;
pub mod contexts;
pub mod decoration;
pub mod generation;
pub mod holders;
pub mod neighborhood;
pub mod position_maps;
pub mod protocol;
pub mod sections;
pub mod service;
pub mod session;
pub mod target;
pub mod transport;
