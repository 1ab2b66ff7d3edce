//! The write-once epoch: the duration between the platform's reference
//! point and the store's timestamp zero.  All timestamp computation, both
//! generation and decoding, depends on this one value being established
//! before any identifier is minted.
use vstd::prelude::*;

use crate::error::Error;

verus! {

/// A write-once cell for the epoch offset.  Concurrent setters race
/// harmlessly: the first writer wins, and a later set is a silent no-op,
/// with no error and no overwrite.
pub struct EpochCell {
    offset_ms: Option<u64>,
}

impl EpochCell {
    /// Whether the offset has been established.
    pub closed spec fn is_set(&self) -> bool {
        self.offset_ms is Some
    }

    /// The established offset, in milliseconds.
    pub closed spec fn offset(&self) -> u64 {
        self.offset_ms->0
    }

    /// A cell with no offset established yet.
    pub fn new() -> (r: EpochCell)
        ensures
            !r.is_set(),
    {
        EpochCell { offset_ms: None }
    }
}

/// Establish the epoch offset: the first writer wins, and any later call
/// is silently ignored, whatever offset it carries.
pub fn set_global_epoch_offset(cell: &mut EpochCell, offset_ms: u64)
    ensures
        final(cell).is_set(),
        old(cell).is_set() ==> *final(cell) == *old(cell),
        !old(cell).is_set() ==> final(cell).offset() == offset_ms,
{
    if cell.offset_ms.is_none() {
        cell.offset_ms = Some(offset_ms);
    }
}

pub fn is_global_epoch_offset_set(cell: &EpochCell) -> (r: bool)
    ensures
        r == cell.is_set(),
{
    cell.offset_ms.is_some()
}

/// The established offset as a duration from the reference point, in
/// milliseconds.
pub fn global_offset(cell: &EpochCell) -> (r: u64)
    requires
        cell.is_set(),
    ensures
        r == cell.offset(),
{
    cell.offset_ms.unwrap()
}

/// The established epoch as an instant: milliseconds from the platform's
/// reference point to timestamp zero.  Numerically the same value as
/// [`global_offset`], read as a point in time rather than a duration.
pub fn global_epoch(cell: &EpochCell) -> (r: u64)
    requires
        cell.is_set(),
    ensures
        r == cell.offset(),
{
    cell.offset_ms.unwrap()
}

/// Relies on `std::time::SystemTime::now` and `duration_since`:
/// milliseconds from the Unix epoch to the current instant, or an error
/// when the system clock reads before the Unix epoch.  Nothing further can
/// be promised of a clock reading.
#[verifier::external_body]
pub fn unix_now() -> (r: Result<u64, Error>) {
    match std::time::SystemTime::now().duration_since(std::time::SystemTime::UNIX_EPOCH) {
        Ok(d) => Ok(d.as_millis() as u64),
        Err(_) => Err(Error::ClockRegression),
    }
}

/// Milliseconds elapsed between two clock readings, as the store counts
/// them: the reading must not precede the configured offset.
pub fn millis_since_offset(unix_ms: u64, offset_ms: u64) -> (r: Result<u64, Error>)
    ensures
        unix_ms >= offset_ms ==> r == Ok::<u64, Error>((unix_ms - offset_ms) as u64),
        unix_ms < offset_ms ==> r == Err::<u64, Error>(Error::ClockRegression),
{
    if unix_ms < offset_ms {
        Err(Error::ClockRegression)
    } else {
        Ok(unix_ms - offset_ms)
    }
}

/// Milliseconds since the established epoch.  Fails when the offset was
/// never set, and when the system clock reports a time before the offset.
pub fn now(cell: &EpochCell) -> (r: Result<u64, Error>)
    ensures
        !cell.is_set() ==> r == Err::<u64, Error>(Error::EpochNotSet),
        r is Ok ==> cell.is_set(),
        cell.is_set() && r is Err ==> r->Err_0 == Error::ClockRegression,
        r is Err ==> (r->Err_0 == Error::EpochNotSet || r->Err_0 == Error::ClockRegression),
{
    if !is_global_epoch_offset_set(cell) {
        return Err(Error::EpochNotSet);
    }
    match unix_now() {
        Ok(ms) => millis_since_offset(ms, global_offset(cell)),
        Err(_) => Err(Error::ClockRegression),
    }
}

} // verus!
