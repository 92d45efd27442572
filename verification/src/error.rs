//! The error kinds the engine reports.
use crate::log::Segment;
use vstd::prelude::*;

verus! {

/// Why an operation of the engine did not succeed.
#[derive(Debug, Clone, Copy, PartialEq, Eq, Structural)]
pub enum KvsError {
    /// Some bytes of the log do not form a valid record.
    CorruptLog,
    /// `remove` was asked to delete a key that has no value.
    KeyNotFound,
    /// A log pointer names a segment that the log does not hold.
    NotFound,
}

impl KvsError {
    /// A human-readable description of the error.
    pub fn message(&self) -> (text: &'static str)
        ensures
            text@ == (match *self {
                KvsError::CorruptLog => "Corrupt log"@,
                KvsError::KeyNotFound => "Key not found"@,
                KvsError::NotFound => "Segment not found"@,
            }),
    {
        match self {
            KvsError::CorruptLog => "Corrupt log",
            KvsError::KeyNotFound => "Key not found",
            KvsError::NotFound => "Segment not found",
        }
    }
}

} // verus!
