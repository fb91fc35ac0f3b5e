//! The error taxonomy surfaced at every interface of the driver.

use vstd::prelude::*;

verus! {

/// Status codes returned by the driver's operations; each failure is a value,
/// never a panic.
#[derive(Clone, Copy, PartialEq, Eq, Structural, Debug)]
pub enum LoopError {
    /// A structural precondition failed: null-like argument, out-of-range
    /// sector, empty or non-contiguous table, unknown pool.
    InvalidParameter,
    /// Buffer size is not a whole multiple of the block size.
    BadBufferSize,
    /// The device currently has no media.
    NoMedia,
    /// The caller's cached media id no longer matches the device's.
    MediaChanged,
    /// A write was attempted on read-only media.
    WriteProtected,
    /// Underlying I/O failed, or an interface snapshot no longer matches.
    DeviceError,
    /// A unit number, handle or descriptor is absent.
    NotFound,
    /// An internal invariant failed: unit-number overflow, ISO header sanity.
    Aborted,
    /// The controller is already installed.
    AlreadyStarted,
    /// The driver-binding facade rejects the controller.
    Unsupported,
    /// A buffer handed in is too small for the operation.
    BufferTooSmall,
}

impl LoopError {
    /// A fixed human-readable name for the status, for hosts that print it.
    pub fn name(&self) -> (r: &'static str)
    {
        match self {
            LoopError::InvalidParameter => "INVALID_PARAMETER",
            LoopError::BadBufferSize => "BAD_BUFFER_SIZE",
            LoopError::NoMedia => "NO_MEDIA",
            LoopError::MediaChanged => "MEDIA_CHANGED",
            LoopError::WriteProtected => "WRITE_PROTECTED",
            LoopError::DeviceError => "DEVICE_ERROR",
            LoopError::NotFound => "NOT_FOUND",
            LoopError::Aborted => "ABORTED",
            LoopError::AlreadyStarted => "ALREADY_STARTED",
            LoopError::Unsupported => "UNSUPPORTED",
            LoopError::BufferTooSmall => "BUFFER_TOO_SMALL",
        }
    }
}

} // verus!
