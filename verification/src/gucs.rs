//! Session-scoped settings the host database exposes to the library.

use vstd::prelude::*;

verus! {

/// The global settings the library reads.  The host-integration layer
/// implements this against the database's own setting registry; a
/// plain value works for single-process builds.
pub trait GlobalGucSettings {
    spec fn telemetry_spec(&self) -> bool;

    spec fn logs_spec(&self) -> bool;

    fn telemetry_enabled(&self) -> (b: bool)
        ensures
            b == self.telemetry_spec(),
    ;

    fn logs_enabled(&self) -> (b: bool)
        ensures
            b == self.logs_spec(),
    ;
}

/// Settings held as plain values, for single-process builds and tests.
#[derive(Clone, Copy, Debug)]
pub struct StaticGucSettings {
    pub telemetry: bool,
    pub logs: bool,
}

impl GlobalGucSettings for StaticGucSettings {
    open spec fn telemetry_spec(&self) -> bool {
        self.telemetry
    }

    open spec fn logs_spec(&self) -> bool {
        self.logs
    }

    fn telemetry_enabled(&self) -> (b: bool) {
        self.telemetry
    }

    fn logs_enabled(&self) -> (b: bool) {
        self.logs
    }
}

} // verus!
