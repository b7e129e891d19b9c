//! The client builder: where to connect, and what to tell the server at
//! startup.

use vstd::prelude::*;
use vstd::string::StringExecFns;

use crate::query::{Query, QueryView};

verus! {

/// Default client identification string sent to the server at connection
/// startup.
pub const DEFAULT_CLIENT_ID: &'static str = "irrc-0.1.0";

/// The command that puts the server into multiple command mode.
pub const MULTIPLE_COMMAND_MODE: &'static str = "!!\n";

/// The command that ends a session.
pub const QUIT: &'static str = "!q\n";

/// Builder for IRR query protocol connections.
#[derive(Debug)]
pub struct IrrClient<A> {
    addr: A,
    client_id: Option<String>,
    server_timeout: Option<u64>,
}

impl<A> IrrClient<A> {
    pub closed spec fn spec_addr(&self) -> A {
        self.addr
    }

    /// The client identification string that was set, if any.
    pub closed spec fn spec_client_id(&self) -> Option<Seq<char>> {
        match self.client_id {
            Some(id) => Some(id@),
            None => None,
        }
    }

    /// The server-side timeout that was set, in seconds, if any.
    pub closed spec fn spec_server_timeout(&self) -> Option<u64> {
        self.server_timeout
    }

    /// The identification that the client sends: the one set, or the default.
    pub open spec fn spec_effective_client_id(&self) -> Seq<char> {
        match self.spec_client_id() {
            Some(id) => id,
            None => DEFAULT_CLIENT_ID@,
        }
    }

    /// A builder for a connection to `addr`, with the default client
    /// identification and the server's own timeout.
    pub fn new(addr: A) -> (r: IrrClient<A>)
        ensures
            r.spec_addr() == addr,
            r.spec_client_id() is None,
            r.spec_server_timeout() is None,
    {
        IrrClient { addr, client_id: None, server_timeout: None }
    }

    /// Sets the client identification string; `None` restores the default.
    pub fn client_id(&mut self, id: Option<&str>)
        ensures
            final(self).spec_addr() == old(self).spec_addr(),
            final(self).spec_server_timeout() == old(self).spec_server_timeout(),
            final(self).spec_client_id() == match id {
                Some(s) => Some(s@),
                None => None::<Seq<char>>,
            },
    {
        self.client_id = match id {
            Some(s) => Some(String::from_str(s)),
            None => None,
        };
    }

    /// Sets a server-side timeout in seconds; `None` leaves it to the server.
    pub fn server_timeout(&mut self, seconds: Option<u64>)
        ensures
            final(self).spec_addr() == old(self).spec_addr(),
            final(self).spec_client_id() == old(self).spec_client_id(),
            final(self).spec_server_timeout() == seconds,
    {
        self.server_timeout = seconds;
    }

    /// The address to connect to.
    pub fn addr(&self) -> (r: &A)
        ensures
            *r == self.spec_addr(),
    {
        &self.addr
    }

    /// The identification that the client sends.
    pub fn effective_client_id(&self) -> (r: String)
        ensures
            r@ == self.spec_effective_client_id(),
    {
        match &self.client_id {
            Some(id) => id.clone(),
            None => String::from_str(DEFAULT_CLIENT_ID),
        }
    }

    /// The queries sent when a connection starts: the client
    /// identification, then the server-side timeout where one is set.
    pub fn startup_queries(&self) -> (r: Vec<Query>)
        ensures
            r@.len() == if self.spec_server_timeout() is Some {
                2int
            } else {
                1int
            },
            r@[0]@ == QueryView::SetClientId(self.spec_effective_client_id()),
            self.spec_server_timeout() matches Some(t) ==> r@[1]@ == QueryView::SetTimeout(t),
    {
        let mut r: Vec<Query> = Vec::new();
        r.push(Query::SetClientId(self.effective_client_id()));
        if let Some(t) = self.server_timeout {
            r.push(Query::SetTimeout(t));
        }
        r
    }
}

} // verus!
