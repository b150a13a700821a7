//! HAL error compatibility layer: maps the generic I2C error kinds of
//! `embedded-hal` onto the library's own `ErrorKind`.

use vstd::prelude::*;
use crate::error::{ErrorKind, I2cError};

verus! {

/// Conversion of a HAL error into the unified `ErrorKind`.
///
/// An implementation that does not define `compat` is taken to report
/// `Unknown` for every error.
pub trait HalErrorExt {
    /// The unified kind of this error, reported for the device at `addr`.
    open spec fn compat(&self, addr: Option<u8>) -> ErrorKind {
        ErrorKind::Unknown
    }

    /// Convert HAL error into unified `ErrorKind`, optionally with device address.
    fn to_compat(&self, addr: Option<u8>) -> (r: ErrorKind)
        ensures
            r == self.compat(addr),
    ;
}

/// The generic I2C error kinds that `embedded-hal` reports, as far as this
/// library tells them apart.
#[derive(Clone, Copy, Debug, PartialEq, Eq, Structural)]
pub enum HalI2cErrorKind {
    Bus,
    ArbitrationLoss,
    NoAcknowledge,
    Overrun,
    Other,
}

/// The unified kind of a HAL I2C error kind.
pub open spec fn compat_kind(kind: HalI2cErrorKind) -> ErrorKind {
    match kind {
        HalI2cErrorKind::Bus => ErrorKind::I2c(I2cError::Bus),
        HalI2cErrorKind::NoAcknowledge => ErrorKind::I2c(I2cError::Nack),
        HalI2cErrorKind::ArbitrationLoss => ErrorKind::I2c(I2cError::ArbitrationLost),
        _ => ErrorKind::Unknown,
    }
}

/// Maps a HAL I2C error kind onto the unified `ErrorKind`.
pub fn compat_kind_of(kind: HalI2cErrorKind) -> (r: ErrorKind)
    ensures
        r == compat_kind(kind),
{
    match kind {
        HalI2cErrorKind::Bus => ErrorKind::I2c(I2cError::Bus),
        HalI2cErrorKind::NoAcknowledge => ErrorKind::I2c(I2cError::Nack),
        HalI2cErrorKind::ArbitrationLoss => ErrorKind::I2c(I2cError::ArbitrationLost),
        _ => ErrorKind::Unknown,
    }
}

impl HalErrorExt for HalI2cErrorKind {
    open spec fn compat(&self, addr: Option<u8>) -> ErrorKind {
        compat_kind(*self)
    }

    fn to_compat(&self, _addr: Option<u8>) -> (r: ErrorKind)
        ensures
            r == compat_kind(*self),
    {
        compat_kind_of(*self)
    }
}

} // verus!
