//! Error kinds of the storage core. Each carries the path of the file the
//! failure concerns, where one is involved.

use vstd::prelude::*;

verus! {

#[derive(Debug, Clone, PartialEq, Eq)]
pub enum Error {
    SequenceNumberOverflow,
    UnableToCreateFile(String),
    UnableToReadDir(String),
    UnableToTruncateLogFile(String),
    UnableToWriteLogFile(String),
    UnableToReadLogFile(String),
    UnexpectedChunkCRC(String),
}

} // verus!
