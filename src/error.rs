//! Failures of background generation.
use vstd::prelude::*;

verus! {

/// Why a generation call, or one of its steps, failed.
#[derive(PartialEq, Eq, Structural, Clone, Copy, Debug)]
pub enum GenError {
    /// The generator id names no known tiling scheme.
    UnsupportedGenerator,
    /// The asset namespace holds no entry under the requested key.
    NotFound,
    /// An asset's bytes are not a well-formed image.
    DecodeError,
    /// A tile was looked up that was never loaded into the cache.
    NotCached,
    /// The shared cache could not be locked.
    LockFailure,
    /// The finished canvas could not be serialised.
    EncodeError,
}

} // verus!
