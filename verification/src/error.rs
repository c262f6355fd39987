//! The errors of the map.

use vstd::prelude::*;

verus! {

/// Why an operation on the map was refused or failed.
///
/// The first three are validation errors: they are reported before any
/// buffer is touched and leave the map unchanged.  The last two describe a
/// compute device that could not be acquired or that failed mid-operation.
#[derive(Clone, Copy, Debug, PartialEq, Eq, Structural)]
pub enum GpuMapError {
    /// The batch does not fit: `requested` slots would be needed.
    CapacityExceeded { capacity: u32, requested: u32 },
    /// A batch entry carries the reserved tombstone value.
    TombstoneReserved { value: u32 },
    /// Two entries of the batch share `key`.
    DuplicateKey { key: u32 },
    /// No compute device could be acquired at construction.
    DeviceInit,
    /// Submission or readback failed; the map is unusable.
    DeviceRuntime,
}

} // verus!
