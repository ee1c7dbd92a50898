use vstd::prelude::*;

verus! {

/// Every way an operation of the engine can fail.
#[derive(Clone, Copy, Debug, PartialEq, Eq, Structural)]
pub enum KvsError {
    /// Creating, opening, reading, writing or flushing the log file failed.
    Io,
    /// A record could not be encoded.
    Serialization,
    /// Bytes read from the log are not a well-formed record.
    CorruptRecord,
    /// `remove` of a key that the store does not hold.
    KeyNotFound,
    /// The record at an indexed offset is not a `Set` of that key.
    IndexCorruption,
}

impl KvsError {
    /// A short human-readable description of the error.
    pub fn message(&self) -> (r: &'static str)
        ensures
            r@ == match *self {
                KvsError::Io => "I/O error on the log file"@,
                KvsError::Serialization => "record could not be encoded"@,
                KvsError::CorruptRecord => "corrupt record in the log"@,
                KvsError::KeyNotFound => "Key not found"@,
                KvsError::IndexCorruption => "index points to a record that does not set the key"@,
            },
    {
        match self {
            KvsError::Io => "I/O error on the log file",
            KvsError::Serialization => "record could not be encoded",
            KvsError::CorruptRecord => "corrupt record in the log",
            KvsError::KeyNotFound => "Key not found",
            KvsError::IndexCorruption => "index points to a record that does not set the key",
        }
    }
}

} // verus!
