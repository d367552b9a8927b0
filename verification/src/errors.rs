use vstd::prelude::*;

verus! {

/// The closed set of error kinds reported by this library.
///
/// Only [`ErrorKind::DataItemIncorrect`] is produced here, by graph
/// construction, when the connection list is empty or contains a connection
/// whose endpoints are equal. The other kinds are reserved for callers'
/// input validation and data assembly around the library. A query that finds
/// no route is not an error: it is reported as an absent result.
#[derive(Clone, Copy, Debug, PartialEq, Eq, Structural)]
pub enum ErrorKind {
    InvalidParameter,
    DataItemIncomplete,
    DataItemIncorrect,
}

} // verus!
