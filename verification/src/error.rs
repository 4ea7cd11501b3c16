//! The errors of the storage engines and of the replica.

use vstd::prelude::*;

verus! {

/// What a storage or replica operation can fail with.
#[derive(PartialEq, Eq, Debug, Clone)]
pub enum Error {
    /// No value is stored under the key asked for.
    NotFound,
    /// Stored bytes could not be read back as the object asked for.
    DBError { msg: String },
    /// A transaction was committed or rolled back while none was open.
    NoTransaction,
    /// A request lacks a field that it must carry.
    LackOf { field: String },
}

/// The error the object store answers when stored bytes cannot be read
/// back as the object asked for.
pub open spec fn is_parse_error(e: Error) -> bool {
    e matches Error::DBError { msg } && msg@ == "parse instance id error"@
}

/// The error the object store answers when stored bytes cannot be read
/// back as the object asked for.
pub fn parse_error() -> (e: Error)
    ensures
        is_parse_error(e),
{
    Error::DBError { msg: String::from_str("parse instance id error") }
}

} // verus!

