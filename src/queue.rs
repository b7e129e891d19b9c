//! The send queue: queries in push order, with the count of those at its
//! head that have been handed out for transmission.

use std::collections::VecDeque;
use vstd::prelude::*;

use crate::query::Query;

verus! {

/// The most queries that may be in flight at once.
pub const MAX_IN_FLIGHT: usize = 1000;

/// The fewest queries that a flush hands out at once, when it must wait
/// for room in the window.
pub const MIN_BATCH: usize = 100;

/// How many queries are in flight after a flush: all of them when the
/// window has room for a whole batch, else as many as before.
pub open spec fn flush_target(sent: nat, len: nat, window: nat, batch: nat) -> nat {
    if sent == len {
        sent
    } else if window - sent >= batch {
        if window < len {
            window
        } else {
            len
        }
    } else {
        sent
    }
}

#[derive(Debug)]
pub struct Queue {
    q: VecDeque<Query>,
    in_flight: usize,
    max_in_flight: usize,
    min_batch: usize,
}

impl Queue {
    /// The queries pushed and not yet popped, oldest first.
    pub closed spec fn items(&self) -> Seq<Query> {
        self.q@
    }

    /// How many queries at the head have been handed out for transmission.
    pub closed spec fn sent(&self) -> nat {
        self.in_flight as nat
    }

    pub closed spec fn window(&self) -> nat {
        self.max_in_flight as nat
    }

    pub closed spec fn batch(&self) -> nat {
        self.min_batch as nat
    }

    pub closed spec fn wf(&self) -> bool {
        self.in_flight <= self.q@.len() && self.in_flight <= self.max_in_flight
    }

    /// A well-formed queue has handed out no more queries than it holds,
    /// nor more than its window.
    pub proof fn lemma_sent_bounded(&self)
        requires
            self.wf(),
        ensures
            self.sent() <= self.items().len(),
            self.sent() <= self.window(),
    {
    }

    /// An empty queue with the default window and batch size.
    pub fn new() -> (r: Queue)
        ensures
            r.wf(),
            r.items() == Seq::<Query>::empty(),
            r.sent() == 0,
            r.window() == MAX_IN_FLIGHT,
            r.batch() == MIN_BATCH,
    {
        Queue { q: VecDeque::new(), in_flight: 0, max_in_flight: MAX_IN_FLIGHT, min_batch: MIN_BATCH }
    }

    pub fn len(&self) -> (r: usize)
        ensures
            r == self.items().len(),
    {
        self.q.len()
    }

    /// Appends a query at the tail.
    pub fn push(&mut self, query: Query)
        requires
            old(self).wf(),
        ensures
            final(self).wf(),
            final(self).items() == old(self).items().push(query),
            final(self).sent() == old(self).sent(),
            final(self).window() == old(self).window(),
            final(self).batch() == old(self).batch(),
    {
        self.q.push_back(query);
    }

    /// Marks queries as handed out, as the flush policy allows; returns the
    /// range of positions that this flush handed out.
    pub fn flush(&mut self) -> (r: (usize, usize))
        requires
            old(self).wf(),
        ensures
            final(self).wf(),
            final(self).items() == old(self).items(),
            final(self).window() == old(self).window(),
            final(self).batch() == old(self).batch(),
            final(self).sent() == flush_target(
                old(self).sent(),
                old(self).items().len(),
                old(self).window(),
                old(self).batch(),
            ),
            r.0 == old(self).sent(),
            r.1 == final(self).sent(),
            r.0 <= r.1 <= old(self).items().len(),
    {
        let start = self.in_flight;
        let len = self.q.len();
        if self.in_flight == len {
            return (start, start);
        }
        let capacity = self.max_in_flight - self.in_flight;
        if capacity >= self.min_batch {
            let upto = if self.max_in_flight < len {
                self.max_in_flight
            } else {
                len
            };
            self.in_flight = upto;
        }
        (start, self.in_flight)
    }

    /// Removes the head, only when it has been handed out.
    pub fn pop(&mut self) -> (r: Option<Query>)
        requires
            old(self).wf(),
        ensures
            final(self).wf(),
            final(self).window() == old(self).window(),
            final(self).batch() == old(self).batch(),
            old(self).sent() > 0 ==> r == Some(old(self).items()[0]) && final(self).items()
                == old(self).items().drop_first() && final(self).sent() == old(self).sent() - 1,
            old(self).sent() == 0 ==> r is None && final(self).items() == old(self).items()
                && final(self).sent() == 0,
    {
        if self.in_flight > 0 {
            let item = self.q.pop_front();
            self.in_flight -= 1;
            item
        } else {
            None
        }
    }

    /// The head, when it has been handed out.
    pub fn head(&self) -> (r: Option<&Query>)
        requires
            self.wf(),
        ensures
            self.sent() <= self.items().len(),
            self.sent() > 0 ==> r == Some(&self.items()[0]),
            self.sent() == 0 ==> r is None,
    {
        if self.in_flight > 0 {
            Some(&self.q[0])
        } else {
            None
        }
    }

    /// The query at position `i`.
    pub fn get(&self, i: usize) -> (r: &Query)
        requires
            i < self.items().len(),
        ensures
            *r == self.items()[i as int],
    {
        &self.q[i]
    }
}

} // verus!
