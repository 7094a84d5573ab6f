//! A host-probing engine: candidate URLs for each host, content matching over
//! response bytes, a per-host probing state machine and bounded admission of
//! concurrent probes.

pub mod candidates;
pub mod matcher;
pub mod prober;
pub mod scheduler;
