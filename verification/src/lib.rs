//! Bookkeeping that a chat bot keeps across restarts: which items were
//! already reported, which recent messages are cached, and which roles a
//! user gets back on rejoining.
//!
//! The state lives in memory. Reading and writing stable storage, the
//! clock and the network are the work of the program around this library,
//! which hands over plain values and is told what to do next.

pub mod channels;
pub mod derp;
pub mod history;
pub mod history_laws;
pub mod migrations;
pub mod recent;
pub mod reddit;
pub mod ring;
pub mod roles;
pub mod seen;
pub mod state;
pub mod store;
pub mod store_laws;
pub mod trace;
