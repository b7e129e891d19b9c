//! Error types returned during query execution.

use vstd::prelude::*;

use crate::query::Query;

verus! {

/// Error responses returned by an IRRd server.
#[derive(Debug, PartialEq, Eq)]
pub enum Response {
    /// The query was valid, but the primary key queried for did not exist.
    KeyNotFound,
    /// The query was valid, but there are multiple copies of the key in one
    /// database.
    KeyNotUnique,
    /// The query was invalid; the server's message.
    Other(String),
}

/// Error variants returned during query execution.
#[derive(Debug, PartialEq, Eq)]
pub enum Error {
    /// The server returned an error response to the query.
    ResponseErr(Query, Response),
    /// The buffer did not hold enough data.
    Incomplete,
    /// The buffer did not hold a well-formed frame.
    ParseErr,
    /// An item was framed, but its content could not be read; the item
    /// spanned this many bytes.
    ParseItem(usize),
    /// No query response could be taken from the pipeline.
    Dequeue,
    /// The server declared data of this length for a query that expects none.
    UnexpectedData(Query, usize),
    /// Items were asked of a response that was already read to its end.
    ConsumedResponse,
    /// The end-of-response marker came after this many bytes, before the
    /// declared length.
    ResponseDataUnderrun(usize, usize),
    /// This many bytes were read without the end-of-response marker, past the
    /// declared length.
    ResponseDataOverrun(usize, usize),
    /// A response that should hold data held none.
    EmptyResponse(Query),
}

} // verus!
