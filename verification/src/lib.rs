//! A development-time log broadcasting sink.
//!
//! Application code emits structured log records (severity, message text,
//! optional structured payload, source location). The sink encodes each
//! record to a textual wire message and fans it out to every connected
//! viewer; records emitted before any viewer connected are kept in a
//! pending buffer and replayed, in order, to the first viewer that
//! connects.
//!
//! This crate holds the verified core: the record data model, the wire
//! codec, the client registry with its buffering and fan-out rules, and
//! the sink built on top of them. Socket transport and the installation
//! of the sink as the process-wide logging destination live outside the
//! verified core.

use vstd::prelude::*;

pub mod codec;
pub mod level;
pub mod record;
pub mod registry;
pub mod sink;

pub use sink::init;
pub use sink::Sink;

verus! {

} // verus!
