//! The sink: the logging-facade-compatible entry point. Every emitted
//! record is encoded to its wire message and handed to the client
//! registry, which broadcasts it to the connected viewers or buffers
//! it while none is connected.

use crate::codec::{enc_record, encode};
use crate::level::Level;
use crate::record::{record_model, Record};
use crate::registry::{publish_step, Registry};
use vstd::prelude::*;

verus! {

/// The broadcast sink: a client registry together with the minimum
/// severity chosen at initialisation.
pub struct Sink {
    pub registry: Registry,
    pub min_level: Level,
}

impl Sink {
    /// The sink is well formed when its registry is.
    pub open spec fn wf(self) -> bool {
        self.registry.wf()
    }

    /// Always true: filtering is delegated to the process-wide
    /// minimum-severity threshold set at initialisation.
    pub fn enabled(&self, _level: Level) -> (r: bool)
        ensures
            r,
    {
        true
    }

    /// Encode a record and hand its wire message to the registry:
    /// queued for every live client, or appended to the pending buffer
    /// while no client is connected.
    pub fn log(&mut self, record: &Record)
        requires
            old(self).wf(),
        ensures
            final(self).wf(),
            final(self).min_level == old(self).min_level,
            publish_step(
                old(self).registry,
                final(self).registry,
                enc_record(record_model(*record)),
            ),
    {
        let w = encode(record);
        self.registry.publish(w);
    }

    /// True when the pending buffer is empty: the condition the drain
    /// operation waits for before process exit.
    pub fn flushed(&self) -> (r: bool)
        ensures
            r == (self.registry.buffer@.len() == 0),
    {
        self.registry.flushed()
    }
}

/// Construct the sink: an empty registry (no clients, no history, an
/// empty pending buffer) and the given minimum severity. The caller
/// installs the result as the process-wide logging destination,
/// exactly once.
pub fn init(min_level: Level) -> (s: Sink)
    ensures
        s.wf(),
        s.min_level == min_level,
        s.registry.clients@.len() == 0,
        s.registry.buffer@.len() == 0,
        s.registry.history@ == Seq::<Seq<u8>>::empty(),
        s.registry.next_id == 0,
{
    Sink { registry: Registry::new(), min_level }
}

} // verus!
