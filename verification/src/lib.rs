//! Core engine of a dynamic-DNS update daemon.
//!
//! Remote hosts announce their current addresses; the engine keeps the
//! freshest announcement per hostname, rewrites the machine-managed lines of
//! a BIND-style zone file from that state, bumps the zone serial, and drives
//! the validate / publish / sign / reload pipeline through an explicit state
//! machine.  All file and process I/O is left to the caller: the engine works
//! on plain values (lines of text, sets of hostnames) so that every decision
//! it makes is verified.

pub mod addr;
pub mod cycle;
pub mod query;
pub mod record;
pub mod serial;
pub mod sets;
pub mod store;
pub mod text;
pub mod time;
pub mod zone;

use vstd::prelude::*;

verus! {

/// Daemon configuration: the zone name, the paths of the zone file, the
/// serial file and the scratch file, and the flags that disable re-signing
/// and nameserver reload.  Paths are carried as plain strings; the caller
/// owns the actual files.
pub struct AppConfig {
    pub zone: String,
    pub zone_fn: String,
    pub serial_fn: String,
    pub out_fn: String,
    pub no_zone_reload: bool,
    pub no_zone_sign: bool,
}

impl AppConfig {
    /// Whether the zone file and the serial file are one and the same path;
    /// the update cycle validates the rewritten zone only in that case.
    pub fn zone_eq_serial(&self) -> (r: bool)
        ensures
            r == (self.zone_fn@ == self.serial_fn@),
    {
        crate::text::str_eq(self.zone_fn.as_str(), self.serial_fn.as_str())
    }
}

} // verus!
