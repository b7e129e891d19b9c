//! Client for the IRRd whois-style query protocol.
//!
//! The library is the protocol engine: rendering of queries, framing of
//! server responses, the send queue and the pipeline state machine that
//! matches responses to queries. It does no I/O of its own: the caller
//! writes the commands that the pipeline hands out and feeds back the bytes
//! that the server sends.

mod buffer;
mod client;
pub mod content;
pub mod error;
pub mod laws;
pub mod parse;
pub mod pipeline;
pub mod query;
mod queue;
mod text;
pub mod types;

pub use self::client::{IrrClient, DEFAULT_CLIENT_ID, MULTIPLE_COMMAND_MODE, QUIT};
pub use self::content::ItemContent;
pub use self::error::Error;
pub use self::pipeline::{
    ItemOrYield, Pipeline, Response, ResponseItem, Responses, Step, DEFAULT_CAPACITY,
};
pub use self::query::{Query, RpslObjectClass};
pub use self::types::{
    AsSet, AsSetMember, AutNum, Mntner, ParseNameError, RangeOperator, RouteSet, RouteSetMember,
    SetComponent,
};
