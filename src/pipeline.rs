//! The pipeline: a send queue, a read buffer and the state machine that
//! reads each response, in order, against the query it answers.
//!
//! The pipeline does no I/O. Its caller writes the commands that
//! [`Pipeline::take_outgoing`] hands out, and feeds the bytes that the
//! server sends through [`Pipeline::feed`]. Each reading step returns
//! [`Step::NeedData`] when the buffer does not yet hold enough bytes: the
//! caller then feeds more and repeats the step.

use vstd::prelude::*;
use vstd::utf8::{decode_utf8, valid_utf8};

use crate::buffer::{buffer_capacity, buffer_data, buffer_space, buffered, consume, fill_from, new_buffer, shift};
use crate::content::ItemContent;
use crate::error::{Error, Response as ServerResponse};
use crate::parse::{
    end_of_response, eor, lemma_preamble_within, response_status, spec_end_of_response,
    spec_preamble, Outcome, Preamble,
};
use crate::query::{command, expects_data, spec_frame, Query};
use crate::queue::{flush_target, Queue, MAX_IN_FLIGHT, MIN_BATCH};

verus! {

/// Default read buffer size of a pipeline: 1 MiB.
pub const DEFAULT_CAPACITY: usize = 1048576;

/// The result of a reading step.
#[derive(Debug)]
pub enum Step<T> {
    /// The buffer does not hold enough bytes: feed more and repeat the step.
    NeedData,
    /// The step completed.
    Ready(T),
}

/// The wire commands of a sequence of queries.
pub open spec fn commands(qs: Seq<Query>) -> Seq<Seq<char>> {
    qs.map_values(|q: Query| command(q@))
}

pub open spec fn string_seq(v: Seq<String>) -> Seq<Seq<char>> {
    v.map_values(|s: String| s@)
}

/// `a + b`, or the largest `usize` where that does not fit.
pub open spec fn sat_add(a: nat, b: nat) -> nat {
    if a + b <= usize::MAX {
        a + b
    } else {
        usize::MAX as nat
    }
}

/// A sequence of queries executed in order over one connection.
#[derive(Debug)]
pub struct Pipeline {
    buf: circular::Buffer,
    capacity: usize,
    queue: Queue,
    outbox: Vec<String>,
}

impl Pipeline {
    pub closed spec fn wf(&self) -> bool {
        &&& self.queue.wf()
        &&& self.queue.window() == MAX_IN_FLIGHT
        &&& self.queue.batch() == MIN_BATCH
        &&& buffer_capacity(self.buf) == self.capacity
        &&& buffer_data(self.buf).len() + buffer_space(self.buf) <= self.capacity
    }

    /// The queries pushed and not yet popped, oldest first.
    pub closed spec fn queued(&self) -> Seq<Query> {
        self.queue.items()
    }

    /// How many queries at the head of the queue have been handed out.
    pub closed spec fn in_flight(&self) -> nat {
        self.queue.sent()
    }

    /// The bytes received and not yet read.
    pub closed spec fn buffered(&self) -> Seq<u8> {
        buffer_data(self.buf)
    }

    /// The commands handed out and not yet taken by the transport.
    pub closed spec fn outgoing(&self) -> Seq<Seq<char>> {
        string_seq(self.outbox@)
    }

    pub closed spec fn capacity(&self) -> nat {
        self.capacity as nat
    }

    /// A well-formed pipeline has no more queries in flight than queued.
    pub proof fn lemma_in_flight_bounded(&self)
        requires
            self.wf(),
        ensures
            self.in_flight() <= self.queued().len(),
            self.buffered().len() <= self.capacity(),
    {
        self.queue.lemma_sent_bounded();
    }

    /// An empty pipeline whose read buffer holds `capacity` bytes.
    pub fn new(capacity: usize) -> (r: Pipeline)
        ensures
            r.wf(),
            r.queued() == Seq::<Query>::empty(),
            r.in_flight() == 0,
            r.buffered() == Seq::<u8>::empty(),
            r.outgoing() == Seq::<Seq<char>>::empty(),
            r.capacity() == capacity,
    {
        let r = Pipeline { buf: new_buffer(capacity), capacity, queue: Queue::new(), outbox: Vec::new() };
        assert(string_seq(r.outbox@) =~= Seq::<Seq<char>>::empty());
        r
    }

    fn data(&self) -> (r: &[u8])
        ensures
            r@ == self.buffered(),
    {
        buffered(&self.buf)
    }

    fn take(&mut self, n: usize)
        requires
            old(self).wf(),
            n <= old(self).buffered().len(),
        ensures
            final(self).wf(),
            final(self).buffered() == old(self).buffered().skip(n as int),
            final(self).queued() == old(self).queued(),
            final(self).in_flight() == old(self).in_flight(),
            final(self).outgoing() == old(self).outgoing(),
            final(self).capacity() == old(self).capacity(),
    {
        consume(&mut self.buf, n);
    }

    /// Hands out the queries that the flush policy lets go: their commands
    /// join the outgoing ones, in queue order.
    fn flush(&mut self)
        requires
            old(self).wf(),
        ensures
            final(self).wf(),
            final(self).queued() == old(self).queued(),
            final(self).in_flight() == flush_target(
                old(self).in_flight(),
                old(self).queued().len(),
                MAX_IN_FLIGHT as nat,
                MIN_BATCH as nat,
            ),
            final(self).outgoing() == old(self).outgoing() + commands(
                old(self).queued().subrange(old(self).in_flight() as int, final(self).in_flight() as int),
            ),
            final(self).buffered() == old(self).buffered(),
            final(self).capacity() == old(self).capacity(),
    {
        let (start, end) = self.queue.flush();
        let ghost items = self.queue.items();
        let ghost before = self.outgoing();
        let mut i = start;
        assert(items.subrange(start as int, start as int) =~= Seq::<Query>::empty());
        assert(before + commands(Seq::<Query>::empty()) =~= before);
        while i < end
            invariant
                self.wf(),
                self.queue.items() == items,
                self.queue.sent() == end,
                self.queue.window() == MAX_IN_FLIGHT,
                self.queue.batch() == MIN_BATCH,
                start <= i <= end,
                end <= items.len(),
                self.outgoing() == before + commands(items.subrange(start as int, i as int)),
                self.buffered() == old(self).buffered(),
                self.capacity == old(self).capacity,
            decreases end - i,
        {
            let c = self.queue.get(i).cmd();
            let ghost prev = self.outbox@;
            self.outbox.push(c);
            assert(string_seq(prev.push(c)) =~= string_seq(prev).push(c@));
            assert(commands(items.subrange(start as int, i + 1)) =~= commands(
                items.subrange(start as int, i as int),
            ).push(command(items[i as int]@)));
            i += 1;
        }
    }

    /// Adds a query to be executed in order, and hands out what the flush
    /// policy lets go.
    pub fn push(&mut self, query: Query)
        requires
            old(self).wf(),
        ensures
            final(self).wf(),
            final(self).queued() == old(self).queued().push(query),
            old(self).in_flight() <= final(self).in_flight() <= final(self).queued().len(),
            final(self).in_flight() == flush_target(
                old(self).in_flight(),
                old(self).queued().len() + 1,
                MAX_IN_FLIGHT as nat,
                MIN_BATCH as nat,
            ),
            final(self).outgoing() == old(self).outgoing() + commands(
                final(self).queued().subrange(old(self).in_flight() as int, final(self).in_flight() as int),
            ),
            final(self).buffered() == old(self).buffered(),
            final(self).capacity() == old(self).capacity(),
    {
        proof {
            self.queue.lemma_sent_bounded();
        }
        self.queue.push(query);
        self.flush();
        proof {
            self.queue.lemma_sent_bounded();
        }
    }

    /// Takes the commands handed out so far, in order, for the transport to
    /// write.
    pub fn take_outgoing(&mut self) -> (r: Vec<String>)
        requires
            old(self).wf(),
        ensures
            final(self).wf(),
            string_seq(r@) == old(self).outgoing(),
            final(self).outgoing() == Seq::<Seq<char>>::empty(),
            final(self).queued() == old(self).queued(),
            final(self).in_flight() == old(self).in_flight(),
            final(self).buffered() == old(self).buffered(),
            final(self).capacity() == old(self).capacity(),
    {
        let r = self.outbox.split_off(0);
        assert(string_seq(self.outbox@) =~= Seq::<Seq<char>>::empty());
        assert(r@ =~= old(self).outbox@);
        r
    }

    /// How many bytes the buffer can take.
    pub fn free_space(&self) -> (r: usize)
        requires
            self.wf(),
        ensures
            r == self.capacity() - self.buffered().len(),
    {
        self.capacity - buffered(&self.buf).len()
    }

    /// Appends bytes received from the server, as many as fit; returns how
    /// many were taken.
    pub fn feed(&mut self, bytes: &[u8]) -> (r: usize)
        requires
            old(self).wf(),
        ensures
            final(self).wf(),
            r == if bytes@.len() <= old(self).capacity() - old(self).buffered().len() {
                bytes@.len()
            } else {
                (old(self).capacity() - old(self).buffered().len()) as nat
            },
            final(self).buffered() == old(self).buffered() + bytes@.take(r as int),
            final(self).queued() == old(self).queued(),
            final(self).in_flight() == old(self).in_flight(),
            final(self).outgoing() == old(self).outgoing(),
            final(self).capacity() == old(self).capacity(),
    {
        shift(&mut self.buf);
        fill_from(&mut self.buf, bytes)
    }
}

/// How a response's reading ended.
pub enum Ending {
    /// It has not ended.
    Reading,
    /// The response held no data.
    Empty,
    /// The end-of-response marker was read.
    Marker,
    /// More bytes were read than the preamble declared.
    Overrun,
    /// The transport failed before the end.
    Abandoned,
}

/// A successful query response, read item by item from its pipeline.
pub struct Response {
    query: Query,
    expect: usize,
    seen: usize,
    finished: bool,
    taken: Ghost<Seq<u8>>,
    ending: Ghost<Ending>,
}

/// What one step of reading a response yields.
pub enum ItemOrYield<T> {
    /// An item, or the error of an item that could not be read; the
    /// response goes on.
    Item(Result<ResponseItem<T>, Error>),
    /// The response has ended: the pipeline may read the next one.
    Yield,
    /// The response had already ended.
    Finished,
    /// The response ended in an error.
    Failed(Error),
}

impl Response {
    /// The query that this responds to.
    pub closed spec fn origin(&self) -> Query {
        self.query
    }

    /// The payload length that the preamble declared.
    pub closed spec fn expected(&self) -> nat {
        self.expect as nat
    }

    /// The payload bytes read so far.
    pub closed spec fn seen_len(&self) -> nat {
        self.seen as nat
    }

    pub closed spec fn is_finished(&self) -> bool {
        self.finished
    }

    /// The bytes that reading this response has taken from the buffer.
    pub closed spec fn taken(&self) -> Seq<u8> {
        self.taken@
    }

    pub closed spec fn ending(&self) -> Ending {
        self.ending@
    }

    pub closed spec fn wf(&self) -> bool {
        &&& self.finished <==> !(self.ending@ is Reading)
        &&& (!expects_data(self.query@) || self.expect == 0) ==> self.taken@ == Seq::<u8>::empty()
        &&& self.ending@ is Empty ==> self.taken@ == Seq::<u8>::empty()
        &&& self.ending@ is Marker ==> self.taken@.len() >= 3 && self.taken@.skip(
            self.taken@.len() - 3,
        ) == eor()
    }

    /// A response to `query` whose preamble declared `expect` bytes.
    fn new(query: Query, expect: usize) -> (r: Response)
        ensures
            r.wf(),
            r.origin() == query,
            r.expected() == expect,
            r.seen_len() == 0,
            !r.is_finished(),
            r.taken() == Seq::<u8>::empty(),
    {
        Response {
            query,
            expect,
            seen: 0,
            finished: false,
            taken: Ghost(Seq::empty()),
            ending: Ghost(Ending::Reading),
        }
    }

    /// The query that this was a response to.
    pub fn query(&self) -> (r: &Query)
        ensures
            *r == self.origin(),
    {
        &self.query
    }

    /// Ends the reading of this response where the transport failed: no
    /// further step reads from the buffer.
    pub fn abandon(&mut self)
        requires
            old(self).wf(),
        ensures
            final(self).wf(),
            final(self).is_finished(),
            final(self).origin() == old(self).origin(),
            final(self).expected() == old(self).expected(),
            final(self).taken() == old(self).taken(),
            old(self).is_finished() ==> *final(self) == *old(self),
    {
        if !self.finished {
            self.finished = true;
            self.ending = Ghost(Ending::Abandoned);
        }
    }
}

/// An individual data element of a query response, with the query that it
/// answers.
#[derive(Debug)]
pub struct ResponseItem<T> {
    content: T,
    query: Query,
}

impl<T> ResponseItem<T> {
    pub closed spec fn item_content(&self) -> T {
        self.content
    }

    pub closed spec fn origin(&self) -> Query {
        self.query
    }

    /// Borrow the content.
    pub fn content(&self) -> (r: &T)
        ensures
            *r == self.item_content(),
    {
        &self.content
    }

    /// Take ownership of the content.
    pub fn into_content(self) -> (r: T)
        ensures
            r == self.item_content(),
    {
        self.content
    }

    /// The query which this element was provided in response to.
    pub fn query(&self) -> (r: &Query)
        ensures
            *r == self.origin(),
    {
        &self.query
    }
}

/// Whether `r` is what the preamble `p` of a response to `q`, read from
/// `s`, yields.
pub open spec fn popped_agrees(q: Query, s: Seq<u8>, p: Preamble, r: Option<Result<Response, Error>>) -> bool {
    match p {
        Preamble::Data(l) => if expects_data(q@) || l == 0 {
            r matches Some(Ok(resp)) && resp.wf() && resp.origin() == q && resp.expected() == l
                && resp.seen_len() == 0 && !resp.is_finished() && resp.taken() == Seq::<u8>::empty()
        } else {
            r == Some(Err::<Response, Error>(Error::UnexpectedData(q, l)))
        },
        Preamble::NoData => r matches Some(Ok(resp)) && resp.wf() && resp.origin() == q
            && resp.expected() == 0 && resp.seen_len() == 0 && !resp.is_finished()
            && resp.taken() == Seq::<u8>::empty(),
        Preamble::KeyNotFound => r == Some(
            Err::<Response, Error>(Error::ResponseErr(q, ServerResponse::KeyNotFound)),
        ),
        Preamble::KeyNotUnique => r == Some(
            Err::<Response, Error>(Error::ResponseErr(q, ServerResponse::KeyNotUnique)),
        ),
        Preamble::Other(a, b) => r matches Some(Err(Error::ResponseErr(q2, ServerResponse::Other(m))))
            && q2 == q && m@ == decode_utf8(s.subrange(a as int, b as int)),
    }
}

impl Pipeline {
    /// Takes the next response off the pipeline: hands out what the flush
    /// policy lets go, then, when a query is in flight, reads its preamble.
    /// `Ready(None)` means that no query is outstanding.
    pub fn pop(&mut self) -> (r: Step<Option<Result<Response, Error>>>)
        requires
            old(self).wf(),
        ensures
            final(self).wf(),
            final(self).capacity() == old(self).capacity(),
            ({
                let sent = flush_target(
                    old(self).in_flight(),
                    old(self).queued().len(),
                    MAX_IN_FLIGHT as nat,
                    MIN_BATCH as nat,
                );
                let q = old(self).queued();
                let s = old(self).buffered();
                &&& final(self).outgoing() == old(self).outgoing() + commands(
                    q.subrange(old(self).in_flight() as int, sent as int),
                )
                &&& sent == 0 ==> (r matches Step::Ready(None) && final(self).queued() == q
                    && final(self).in_flight() == 0 && final(self).buffered() == s)
                &&& sent > 0 ==> match spec_preamble(s) {
                    Outcome::Incomplete => r is NeedData && final(self).queued() == q
                        && final(self).in_flight() == sent && final(self).buffered() == s,
                    Outcome::Invalid => r matches Step::Ready(Some(Err(Error::ParseErr)))
                        && final(self).queued() == q.drop_first() && final(self).in_flight() == sent
                        - 1 && final(self).buffered() == s,
                    Outcome::Done(n, p) => r matches Step::Ready(v) && popped_agrees(q[0], s, p, v)
                        && final(self).queued() == q.drop_first() && final(self).in_flight() == sent
                        - 1 && final(self).buffered() == s.skip(n as int),
                }
            }),
            (r matches Step::Ready(Some(_))) ==> (old(self).queued().len() > 0 && final(self).queued()
                == old(self).queued().drop_first()),
            !(r matches Step::Ready(Some(_))) ==> final(self).queued() == old(self).queued(),
            (r matches Step::Ready(None)) <==> old(self).queued().len() == 0,
    {
        proof {
            self.queue.lemma_sent_bounded();
        }
        self.flush();
        if self.queue.head().is_none() {
            return Step::Ready(None);
        }
        let status = response_status(self.data());
        match status {
            Outcome::Incomplete => Step::NeedData,
            Outcome::Invalid => {
                let _ = self.queue.pop();
                Step::Ready(Some(Err(Error::ParseErr)))
            },
            Outcome::Done(n, result) => {
                let query = match self.queue.pop() {
                    Some(q) => q,
                    None => {
                        return Step::Ready(None);
                    },
                };
                proof {
                    crate::parse::lemma_preamble_within(self.buffered());
                }
                self.take(n);
                match result {
                    Ok(len) => {
                        let expect = match len {
                            Some(l) => l,
                            None => 0,
                        };
                        if query.expect_data() || expect == 0 {
                            Step::Ready(Some(Ok(Response::new(query, expect))))
                        } else {
                            Step::Ready(Some(Err(Error::UnexpectedData(query, expect))))
                        }
                    },
                    Err(err) => Step::Ready(Some(Err(Error::ResponseErr(query, err)))),
                }
            },
        }
    }
}

/// Whether `r` is the item read from `s` for a response to `q`: the item's
/// text decoded as UTF-8 and read as a `T`, or the item error.
pub open spec fn item_step_agrees<T: ItemContent>(q: Query, s: Seq<u8>, r: Step<ItemOrYield<T>>) -> bool {
    match spec_frame(q@, s) {
        Outcome::Done(n, (a, b)) => {
            let bytes = s.subrange(a as int, b as int);
            let readable = valid_utf8(bytes) && T::accepts(decode_utf8(bytes));
            match r {
                Step::Ready(ItemOrYield::Item(Ok(item))) => readable && T::denotes(
                    decode_utf8(bytes),
                    item.item_content(),
                ) && item.origin()@ == q@,
                Step::Ready(ItemOrYield::Item(Err(Error::ParseItem(m)))) => !readable && m == n,
                _ => false,
            }
        },
        _ => false,
    }
}

impl Response {
    /// One step of reading this response from the pipeline's buffer.
    pub fn next_or_yield<T: ItemContent>(&mut self, p: &mut Pipeline) -> (r: Step<ItemOrYield<T>>)
        requires
            old(self).wf(),
            old(p).wf(),
        ensures
            final(self).wf(),
            final(p).wf(),
            final(p).queued() == old(p).queued(),
            final(p).in_flight() == old(p).in_flight(),
            final(p).outgoing() == old(p).outgoing(),
            final(p).capacity() == old(p).capacity(),
            final(self).origin() == old(self).origin(),
            final(self).expected() == old(self).expected(),
            old(self).taken() + old(p).buffered() == final(self).taken() + final(p).buffered(),
            old(self).taken().len() <= final(self).taken().len(),
            old(self).taken() == final(self).taken().take(old(self).taken().len() as int),
            ({
                let q = old(self).origin();
                let s = old(p).buffered();
                let seen = old(self).seen_len();
                let expect = old(self).expected();
                if old(self).is_finished() {
                    r matches Step::Ready(ItemOrYield::Finished) && *final(self) == *old(self)
                        && final(p).buffered() == s
                } else if !expects_data(q@) || expect == 0 {
                    r matches Step::Ready(ItemOrYield::Yield) && final(self).is_finished()
                        && final(self).ending() is Empty && final(p).buffered() == s
                } else if spec_end_of_response(s) is Done {
                    &&& final(self).is_finished()
                    &&& final(self).ending() is Marker
                    &&& final(p).buffered() == s.skip(3)
                    &&& if expect == seen + 1 {
                        r matches Step::Ready(ItemOrYield::Yield)
                    } else {
                        r matches Step::Ready(ItemOrYield::Failed(e)) && e
                            == Error::ResponseDataUnderrun(seen as usize, expect as usize)
                    }
                } else if seen > expect {
                    &&& final(self).is_finished()
                    &&& final(self).seen_len() == seen
                    &&& final(self).ending() is Overrun
                    &&& final(p).buffered() == s
                    &&& r matches Step::Ready(ItemOrYield::Failed(e)) && e
                        == Error::ResponseDataOverrun(seen as usize, expect as usize)
                } else {
                    match spec_frame(q@, s) {
                        Outcome::Done(n, _) => {
                            &&& !final(self).is_finished()
                            &&& 1 <= n <= s.len()
                            &&& final(p).buffered() == s.skip(n as int)
                            &&& final(self).seen_len() == sat_add(seen, n as nat)
                            &&& item_step_agrees(q, s, r)
                        },
                        _ => r is NeedData && *final(self) == *old(self) && final(p).buffered() == s,
                    }
                }
            }),
    {
        if self.finished {
            return Step::Ready(ItemOrYield::Finished);
        }
        if !self.query.expect_data() || self.expect == 0 {
            self.finished = true;
            self.ending = Ghost(Ending::Empty);
            return Step::Ready(ItemOrYield::Yield);
        }
        let ghost s = p.buffered();
        let marker = end_of_response(p.data());
        if let Outcome::Done(_, _) = marker {
            p.take(3);
            self.taken = Ghost(self.taken@ + s.take(3));
            self.finished = true;
            self.ending = Ghost(Ending::Marker);
            assert(self.taken@.skip(self.taken@.len() - 3) =~= eor());
            assert(old(self).taken() + s =~= self.taken@ + s.skip(3));
            assert(old(self).taken() =~= self.taken@.take(old(self).taken().len() as int));
            if self.seen < self.expect && self.expect - self.seen == 1 {
                return Step::Ready(ItemOrYield::Yield);
            } else {
                return Step::Ready(
                    ItemOrYield::Failed(Error::ResponseDataUnderrun(self.seen, self.expect)),
                );
            }
        }
        if self.seen > self.expect {
            self.finished = true;
            self.ending = Ghost(Ending::Overrun);
            return Step::Ready(ItemOrYield::Failed(Error::ResponseDataOverrun(self.seen, self.expect)));
        }
        proof {
            crate::query::lemma_frame_progress(self.query@, s);
        }
        let parsed = self.query.parse_item::<T>(p.data());
        match parsed {
            Ok((n, v)) => {
                p.take(n);
                self.taken = Ghost(self.taken@ + s.take(n as int));
                self.seen = if n <= usize::MAX - self.seen {
                    self.seen + n
                } else {
                    usize::MAX
                };
                assert(old(self).taken() + s =~= self.taken@ + s.skip(n as int));
                assert(old(self).taken() =~= self.taken@.take(old(self).taken().len() as int));
                Step::Ready(ItemOrYield::Item(Ok(ResponseItem { content: v, query: self.query.duplicate() })))
            },
            Err(Error::ParseItem(n)) => {
                p.take(n);
                self.taken = Ghost(self.taken@ + s.take(n as int));
                self.seen = if n <= usize::MAX - self.seen {
                    self.seen + n
                } else {
                    usize::MAX
                };
                assert(old(self).taken() + s =~= self.taken@ + s.skip(n as int));
                assert(old(self).taken() =~= self.taken@.take(old(self).taken().len() as int));
                Step::Ready(ItemOrYield::Item(Err(Error::ParseItem(n))))
            },
            Err(_) => Step::NeedData,
        }
    }
}

impl Response {
    /// Reads and drops the rest of this response's items, so that the buffer
    /// is left where the next response begins. It finishes exactly when the
    /// buffer holds the rest of the response (`payload_len`), and then leaves
    /// the buffer just past it.
    pub fn drain(&mut self, p: &mut Pipeline) -> (r: Step<()>)
        requires
            old(self).wf(),
            old(p).wf(),
        ensures
            final(self).wf(),
            final(p).wf(),
            final(p).queued() == old(p).queued(),
            final(p).in_flight() == old(p).in_flight(),
            final(p).outgoing() == old(p).outgoing(),
            final(p).capacity() == old(p).capacity(),
            final(self).origin() == old(self).origin(),
            old(self).taken() + old(p).buffered() == final(self).taken() + final(p).buffered(),
            old(self).taken() == final(self).taken().take(old(self).taken().len() as int),
            old(self).is_finished() ==> r is Ready && *final(self) == *old(self),
            r is Ready ==> final(self).is_finished(),
            (r is Ready) == (payload_len(state_of(*old(self)), old(p).buffered()) is Some),
            r is Ready ==> final(p).buffered() == old(p).buffered().skip(
                payload_len(state_of(*old(self)), old(p).buffered())->0 as int,
            ),
            (r is Ready && !old(self).is_finished()) ==> (final(self).ending() is Marker
                || final(self).ending() is Empty || (final(self).ending() is Overrun
                && final(self).seen_len() > final(self).expected())),
            r is NeedData ==> ({
                let s = final(p).buffered();
                let c = *final(self);
                &&& !c.is_finished()
                &&& expects_data(c.origin()@)
                &&& c.expected() > 0
                &&& !(spec_end_of_response(s) is Done)
                &&& c.seen_len() <= c.expected()
                &&& !(spec_frame(c.origin()@, s) is Done)
            }),
            r is Ready && !(final(self).ending() is Overrun) && !(final(self).ending() is Abandoned)
                ==> final(self).taken() == Seq::<u8>::empty() || final(self).taken().skip(
                final(self).taken().len() - 3,
            ) == eor(),
    {
        let ghost s0 = p.buffered();
        let ghost total = payload_len(state_of(*self), s0);
        let ghost mut d: int = 0;
        assert(s0.skip(0) =~= s0);
        loop
            invariant
                self.wf(),
                p.wf(),
                p.queued() == old(p).queued(),
                p.in_flight() == old(p).in_flight(),
                p.outgoing() == old(p).outgoing(),
                p.capacity() == old(p).capacity(),
                self.origin() == old(self).origin(),
                self.expected() == old(self).expected(),
                old(self).taken() + old(p).buffered() == self.taken() + p.buffered(),
                old(self).taken().len() <= self.taken().len(),
                old(self).taken() == self.taken().take(old(self).taken().len() as int),
                old(self).is_finished() ==> *self == *old(self),
                !old(self).is_finished() ==> !self.is_finished(),
                s0 == old(p).buffered(),
                total == payload_len(state_of(*old(self)), s0),
                0 <= d <= s0.len(),
                p.buffered() == s0.skip(d),
                (payload_len(state_of(*self), p.buffered()) is Some) == (total is Some),
                total is Some ==> total->0 == d + payload_len(state_of(*self), p.buffered())->0,
            decreases p.buffered().len(),
        {
            let ghost before = self.taken();
            let ghost sb = p.buffered();
            let ghost cb = *self;
            proof {
                p.lemma_in_flight_bounded();
                if expects_data(cb.origin()@) && !(spec_end_of_response(sb) is Done) {
                    crate::query::lemma_frame_progress(cb.origin()@, sb);
                }
            }
            let step = self.next_or_yield::<String>(p);
            proof {
                let kk = old(self).taken().len() as int;
                assert forall|i: int| 0 <= i < kk implies #[trigger] self.taken()[i] == old(
                    self,
                ).taken()[i] by {
                    assert(self.taken().take(before.len() as int)[i] == before[i]);
                }
                assert(old(self).taken() =~= self.taken().take(kk));
            }
            match step {
                Step::NeedData => {
                    return Step::NeedData;
                },
                Step::Ready(ItemOrYield::Item(_)) => {
                    proof {
                        let e = sb.len() - p.buffered().len();
                        let m1 = state_of(*self);
                        lemma_payload_bound(m1, p.buffered());
                        if let Some(k) = payload_len(m1, p.buffered()) {
                            assert(p.buffered().skip(k as int) =~= sb.skip(k + e));
                        }
                        assert(s0.skip(d).skip(e) =~= s0.skip(d + e));
                        d = d + e;
                    }
                },
                Step::Ready(_) => {
                    proof {
                        let e = sb.len() - p.buffered().len();
                        assert(sb.skip(0) =~= sb);
                        assert(s0.skip(d).skip(e) =~= s0.skip(d + e));
                        d = d + e;
                        assert(p.buffered().skip(0) =~= p.buffered());
                    }
                    return Step::Ready(());
                },
            }
        }
    }
}

/// Where `a + b == c + d` and `c` extends `a`, `b` is the rest of `c`
/// followed by `d`.
proof fn lemma_cancel(a: Seq<u8>, b: Seq<u8>, c: Seq<u8>, d: Seq<u8>)
    requires
        a + b == c + d,
        a.len() <= c.len(),
        a == c.take(a.len() as int),
    ensures
        b == c.skip(a.len() as int) + d,
{
    let x = c.skip(a.len() as int);
    assert((a + b).len() == a.len() + b.len());
    assert((c + d).len() == c.len() + d.len());
    assert(a.len() + b.len() == c.len() + d.len());
    assert(x.len() == c.len() - a.len());
    assert forall|i: int| 0 <= i < b.len() implies #[trigger] b[i] == (x + d)[i] by {
        let j = a.len() + i;
        assert(j < c.len() + d.len());
        assert((a + b)[j] == b[i]);
        assert((a + b)[j] == (c + d)[j]);
        if j < c.len() {
            assert((c + d)[j] == c[j]);
            assert(x[i] == c[j]);
        } else {
            assert((c + d)[j] == d[j - c.len()]);
            assert((x + d)[i] == d[i - x.len()]);
        }
    }
    assert(b =~= x + d);
}

/// A response's reading state as a value: the query it answers, the
/// payload bytes read, the declared length, and whether it has ended.
pub type ReadState = (Query, nat, nat, bool);

pub open spec fn state_of(c: Response) -> ReadState {
    (c.origin(), c.seen_len(), c.expected(), c.is_finished())
}

/// The reading state of a walk's current response, if any.
pub open spec fn current_state(w: Responses) -> Option<ReadState> {
    match w.current() {
        Some(c) => Some(state_of(c)),
        None => None,
    }
}

/// The declared payload length of a preamble.
pub open spec fn data_len(pre: Preamble) -> nat {
    match pre {
        Preamble::Data(l) => l as nat,
        _ => 0,
    }
}

/// Whether a response in state `m`, reading from `s`, has no more items: it
/// had ended, it holds no data, or the end marker stands where its declared
/// length puts it.
pub open spec fn ends_at(m: ReadState, s: Seq<u8>) -> bool {
    m.3 || !expects_data(m.0@) || m.2 == 0 || (spec_end_of_response(s) is Done && m.2 == m.1 + 1)
}

pub open spec fn ends(c: Response, s: Seq<u8>) -> bool {
    ends_at(state_of(c), s)
}

/// The buffer once a response in state `m` has been ended: past its end
/// marker where it carried data and the marker is at the head.
pub open spec fn after_end_at(m: ReadState, s: Seq<u8>) -> Seq<u8> {
    if !m.3 && expects_data(m.0@) && m.2 > 0 && spec_end_of_response(s) is Done {
        s.skip(3)
    } else {
        s
    }
}

pub open spec fn after_end(c: Response, s: Seq<u8>) -> Seq<u8> {
    after_end_at(state_of(c), s)
}

/// How many bytes reading the rest of a response in state `m` takes from
/// `s`: its items, then its end marker; nothing where it has ended or holds
/// no data; up to the point where it overruns its declared length. `None`
/// where `s` does not hold enough for that.
pub open spec fn payload_len(m: ReadState, s: Seq<u8>) -> Option<nat>
    decreases s.len(),
{
    if m.3 || !expects_data(m.0@) || m.2 == 0 {
        Some(0)
    } else if spec_end_of_response(s) is Done {
        Some(3)
    } else if m.1 > m.2 {
        Some(0)
    } else {
        match spec_frame(m.0@, s) {
            Outcome::Done(n, _) => if 1 <= n && n <= s.len() {
                match payload_len((m.0, sat_add(m.1, n as nat), m.2, false), s.skip(n as int)) {
                    Some(k) => Some(k + n as nat),
                    None => None,
                }
            } else {
                None
            },
            _ => None,
        }
    }
}

/// How many bytes a walk takes from `s` reading the rest of its current
/// response (in state `cur`) and the responses to the queries `qs`, in
/// order; `None` where `s` does not hold enough for that.
pub open spec fn walked(cur: Option<ReadState>, qs: Seq<Query>, s: Seq<u8>) -> Option<nat>
    decreases qs.len(), if cur is Some {
        1int
    } else {
        0int
    },
{
    match cur {
        Some(m) => match payload_len(m, s) {
            Some(k) => match walked(None, qs, s.skip(k as int)) {
                Some(j) => Some(k + j),
                None => None,
            },
            None => None,
        },
        None => if qs.len() == 0 {
            Some(0)
        } else {
            match spec_preamble(s) {
                Outcome::Done(n, pre) => {
                    let rest = if opens(pre, qs[0]) {
                        walked(Some((qs[0], 0nat, data_len(pre), false)), qs.drop_first(), s.skip(n as int))
                    } else {
                        walked(None, qs.drop_first(), s.skip(n as int))
                    };
                    match rest {
                        Some(j) => Some(n as nat + j),
                        None => None,
                    }
                },
                Outcome::Invalid => walked(None, qs.drop_first(), s),
                Outcome::Incomplete => None,
            }
        },
    }
}

/// Whether a preamble opens a response to `q` that the walk then reads.
pub open spec fn opens(pre: Preamble, q: Query) -> bool {
    match pre {
        Preamble::Data(l) => expects_data(q@) || l == 0,
        Preamble::NoData => true,
        _ => false,
    }
}

/// What a walk yields from its current response, in state `m` and not
/// ended, when the buffer holds `s`: the response's next item, its item
/// error, or the error that ends it; `w` and `p` are the walk and pipeline
/// after.
pub open spec fn drive_agrees<T: ItemContent>(
    m: ReadState,
    s: Seq<u8>,
    w: Responses,
    p: Pipeline,
    r: Step<Option<Result<ResponseItem<T>, Error>>>,
) -> bool {
    let q = m.0;
    let seen = m.1;
    let expect = m.2;
    if spec_end_of_response(s) is Done {
        &&& (r matches Step::Ready(Some(Err(e))) && e == Error::ResponseDataUnderrun(
            seen as usize,
            expect as usize,
        ))
        &&& w.current() is None
        &&& p.buffered() == s.skip(3)
    } else if seen > expect {
        &&& (r matches Step::Ready(Some(Err(e))) && e == Error::ResponseDataOverrun(
            seen as usize,
            expect as usize,
        ))
        &&& w.current() is None
        &&& p.buffered() == s
    } else {
        match spec_frame(q@, s) {
            Outcome::Done(n, (a, b)) => {
                let bytes = s.subrange(a as int, b as int);
                let readable = valid_utf8(bytes) && T::accepts(decode_utf8(bytes));
                &&& p.buffered() == s.skip(n as int)
                &&& current_state(w) == Some((q, sat_add(seen, n as nat), expect, false))
                &&& match r {
                    Step::Ready(Some(Ok(item))) => readable && T::denotes(
                        decode_utf8(bytes),
                        item.item_content(),
                    ) && item.origin()@ == q@,
                    Step::Ready(Some(Err(Error::ParseItem(k)))) => !readable && k == n,
                    _ => false,
                }
            },
            _ => r is NeedData && current_state(w) == Some(m) && p.buffered() == s,
        }
    }
}

/// What `next` yields from a walk whose current response is in state `cur`,
/// over a queue `qs` and a buffer `s`, having taken `popped` before: ended
/// responses are passed over and the next one opened, in queue order, until
/// a response yields an item, an error or a request for bytes, or no query
/// is outstanding.
pub open spec fn walk<T: ItemContent>(
    cur: Option<ReadState>,
    qs: Seq<Query>,
    s: Seq<u8>,
    popped: Seq<Query>,
    w: Responses,
    p: Pipeline,
    r: Step<Option<Result<ResponseItem<T>, Error>>>,
) -> bool
    decreases qs.len(), if cur is Some {
        1int
    } else {
        0int
    },
{
    match cur {
        Some(m) => if !ends_at(m, s) {
            drive_agrees(m, s, w, p, r) && p.queued() == qs && w.popped() == popped
        } else {
            walk(None, qs, after_end_at(m, s), popped, w, p, r)
        },
        None => if qs.len() == 0 {
            pop_phase(qs, s, popped, w, p, r)
        } else {
            match spec_preamble(s) {
                Outcome::Done(n, pre) => if opens(pre, qs[0]) {
                    walk(
                        Some((qs[0], 0nat, data_len(pre), false)),
                        qs.drop_first(),
                        s.skip(n as int),
                        popped.push(qs[0]),
                        w,
                        p,
                        r,
                    )
                } else {
                    pop_phase(qs, s, popped, w, p, r)
                },
                _ => pop_phase(qs, s, popped, w, p, r),
            }
        },
    }
}

/// What a walk yields when it takes the next response off a pipeline whose
/// queue is `q` and whose buffer holds `s`, the walk having taken `popped`
/// before: nothing when no query is outstanding, a request for bytes, or
/// the error that the preamble reports for the head query. (A preamble that
/// opens a response leads to that response's reading instead.)
pub open spec fn pop_phase<T>(
    q: Seq<Query>,
    s: Seq<u8>,
    popped: Seq<Query>,
    w: Responses,
    p: Pipeline,
    r: Step<Option<Result<ResponseItem<T>, Error>>>,
) -> bool {
    if q.len() == 0 {
        &&& r matches Step::Ready(None)
        &&& w.current() is None
        &&& w.popped() == popped
        &&& p.queued() == q
        &&& p.buffered() == s
    } else {
        match spec_preamble(s) {
            Outcome::Incomplete => {
                &&& r is NeedData
                &&& w.current() is None
                &&& w.popped() == popped
                &&& p.queued() == q
                &&& p.buffered() == s
            },
            Outcome::Invalid => {
                &&& r matches Step::Ready(Some(Err(Error::ParseErr)))
                &&& w.current() is None
                &&& w.popped() == popped.push(q[0])
                &&& p.queued() == q.drop_first()
                &&& p.buffered() == s
            },
            Outcome::Done(n, pre) => if opens(pre, q[0]) {
                false
            } else {
                &&& (r matches Step::Ready(Some(Err(e))) && popped_agrees(
                    q[0],
                    s,
                    pre,
                    Some(Err::<Response, Error>(e)),
                ))
                &&& w.current() is None
                &&& w.popped() == popped.push(q[0])
                &&& p.queued() == q.drop_first()
                &&& p.buffered() == s.skip(n as int)
            },
        }
    }
}

/// The state in which a walk asks for bytes: its current response needs
/// them for its next item, or the head query's preamble is incomplete.
pub open spec fn waits_for_bytes(w: Responses, p: Pipeline) -> bool {
    match w.current() {
        Some(c) => {
            &&& !c.is_finished()
            &&& expects_data(c.origin()@)
            &&& c.expected() > 0
            &&& !(spec_end_of_response(p.buffered()) is Done)
            &&& c.seen_len() <= c.expected()
            &&& !(spec_frame(c.origin()@, p.buffered()) is Done)
        },
        None => p.queued().len() > 0 && spec_preamble(p.buffered()) is Incomplete,
    }
}

/// The items of all outstanding responses of a pipeline, in order: the
/// state of one walk through them.
pub struct Responses {
    current: Option<Response>,
    popped: Ghost<Seq<Query>>,
    taken: Ghost<Seq<u8>>,
}

impl Responses {
    /// The queries whose responses this walk has taken off the pipeline, in
    /// order.
    pub closed spec fn popped(&self) -> Seq<Query> {
        self.popped@
    }

    /// The bytes that this walk has taken from the buffer, in order.
    pub closed spec fn taken(&self) -> Seq<u8> {
        self.taken@
    }

    /// The response being read, if any.
    pub closed spec fn current(&self) -> Option<Response> {
        self.current
    }

    /// How much is left to walk: the queued queries count twice, a
    /// response being read once.
    pub closed spec fn pending(&self, p: Pipeline) -> int {
        2 * p.queued().len() + if self.current is Some {
            1int
        } else {
            0int
        }
    }

    pub closed spec fn wf(&self) -> bool {
        self.current matches Some(c) ==> c.wf() && self.popped@.len() > 0 && c.origin()
            == self.popped@.last()
    }

    /// A walk that has taken nothing yet.
    pub fn new() -> (r: Responses)
        ensures
            r.wf(),
            r.popped() == Seq::<Query>::empty(),
            r.taken() == Seq::<u8>::empty(),
            r.current() is None,
    {
        Responses { current: None, popped: Ghost(Seq::empty()), taken: Ghost(Seq::empty()) }
    }

    /// One step of the current response, if there is one and it has not
    /// ended; `None` when the walk must take the next response.
    fn drive<T: ItemContent>(&mut self, p: &mut Pipeline) -> (r: Option<
        Step<Option<Result<ResponseItem<T>, Error>>>,
    >)
        requires
            old(self).wf(),
            old(p).wf(),
        ensures
            final(self).wf(),
            final(p).wf(),
            final(p).capacity() == old(p).capacity(),
            final(p).queued() == old(p).queued(),
            final(p).in_flight() == old(p).in_flight(),
            final(self).popped() == old(self).popped(),
            old(self).taken() + old(p).buffered() == final(self).taken() + final(p).buffered(),
            match old(self).current() {
                None => r is None && *final(self) == *old(self) && *final(p) == *old(p),
                Some(c) => if ends(c, old(p).buffered()) {
                    r is None && final(self).current() is None && final(p).buffered() == after_end(
                        c,
                        old(p).buffered(),
                    )
                } else {
                    r matches Some(x) && drive_agrees(state_of(c), old(p).buffered(), *final(self), *final(p), x)
                },
            },
            r matches Some(Step::NeedData) ==> waits_for_bytes(*final(self), *final(p)),
            r matches Some(Step::Ready(Some(_))) ==> final(self).pending(*final(p)) < old(self).pending(
                *old(p),
            ) || (final(self).pending(*final(p)) == old(self).pending(*old(p))
                && final(p).buffered().len() < old(p).buffered().len()),
            r is None ==> final(self).current() is None,
    {
        let mut cur = match self.current.take() {
            Some(c) => c,
            None => {
                return None;
            },
        };
        proof {
            p.lemma_in_flight_bounded();
        }
        let ghost s = p.buffered();
        let ghost ct = cur.taken();
        let step = cur.next_or_yield::<T>(p);
        proof {
            let x = cur.taken().skip(ct.len() as int);
            lemma_cancel(ct, s, cur.taken(), p.buffered());
            self.taken = Ghost(self.taken@ + x);
            assert(old(self).taken() + s =~= self.taken@ + p.buffered());
        }
        match step {
            Step::NeedData => {
                self.current = Some(cur);
                Some(Step::NeedData)
            },
            Step::Ready(ItemOrYield::Item(item)) => {
                self.current = Some(cur);
                Some(Step::Ready(Some(item)))
            },
            Step::Ready(ItemOrYield::Failed(e)) => Some(Step::Ready(Some(Err(e)))),
            Step::Ready(_) => None,
        }
    }

    /// Takes the next response off the pipeline; `None` when it opened a
    /// response, which is now current.
    fn advance<T: ItemContent>(&mut self, p: &mut Pipeline) -> (r: Option<
        Step<Option<Result<ResponseItem<T>, Error>>>,
    >)
        requires
            old(self).wf(),
            old(p).wf(),
            old(self).current() is None,
        ensures
            final(self).wf(),
            final(p).wf(),
            final(p).capacity() == old(p).capacity(),
            old(self).popped() + old(p).queued() == final(self).popped() + final(p).queued(),
            old(self).popped() == final(self).popped().take(old(self).popped().len() as int),
            old(self).popped().len() <= final(self).popped().len(),
            old(self).taken() + old(p).buffered() == final(self).taken() + final(p).buffered(),
            r matches Some(x) ==> pop_phase(
                old(p).queued(),
                old(p).buffered(),
                old(self).popped(),
                *final(self),
                *final(p),
                x,
            ) && final(self).current() is None && !(old(p).queued().len() > 0 && (spec_preamble(
                old(p).buffered(),
            ) matches Outcome::Done(_, pre) && opens(pre, old(p).queued()[0]))),
            r is None ==> ({
                let q = old(p).queued();
                let s = old(p).buffered();
                &&& q.len() > 0
                &&& spec_preamble(s) matches Outcome::Done(n, pre) && opens(pre, q[0])
                    && final(p).buffered() == s.skip(n as int)
                &&& final(self).current() matches Some(c) && c.origin() == q[0] && (spec_preamble(s) matches Outcome::Done(_, pre) && popped_agrees(q[0], s, pre, Some(Ok::<Response, Error>(c))))
                &&& final(self).popped() == old(self).popped().push(q[0])
                &&& final(p).queued() == q.drop_first()
            }),
            r matches Some(Step::NeedData) ==> waits_for_bytes(*final(self), *final(p)),
            r matches Some(Step::Ready(Some(_))) ==> final(self).pending(*final(p)) < old(self).pending(
                *old(p),
            ),
            r is None ==> final(self).pending(*final(p)) < old(self).pending(*old(p)),
    {
        let ghost q = p.queued();
        let ghost before = self.popped@;
        let ghost s = p.buffered();
        proof {
            p.lemma_in_flight_bounded();
            crate::parse::lemma_preamble_within(s);
        }
        let popped = p.pop();
        proof {
            let m = s.len() - p.buffered().len();
            assert(s =~= s.take(m) + p.buffered());
            self.taken = Ghost(self.taken@ + s.take(m));
            assert(old(self).taken() + s =~= self.taken@ + p.buffered());
        }
        match popped {
            Step::NeedData => Some(Step::NeedData),
            Step::Ready(None) => Some(Step::Ready(None)),
            Step::Ready(Some(Ok(resp))) => {
                self.popped = Ghost(before.push(q[0]));
                assert(before + q =~= self.popped@ + q.drop_first());
                assert(before =~= self.popped@.take(before.len() as int));
                self.current = Some(resp);
                None
            },
            Step::Ready(Some(Err(e))) => {
                self.popped = Ghost(before.push(q[0]));
                assert(before + q =~= self.popped@ + q.drop_first());
                assert(before =~= self.popped@.take(before.len() as int));
                Some(Step::Ready(Some(Err(e))))
            },
        }
    }

    /// The next item of the walk: from the current response while it has
    /// items, and otherwise from the responses taken off the pipeline in
    /// order. Server errors and framing errors come as `Some(Err(..))`;
    /// `None` means that no query is outstanding.
    pub fn next<T: ItemContent>(&mut self, p: &mut Pipeline) -> (r: Step<
        Option<Result<ResponseItem<T>, Error>>,
    >)
        requires
            old(self).wf(),
            old(p).wf(),
        ensures
            final(self).wf(),
            final(p).wf(),
            final(p).capacity() == old(p).capacity(),
            old(self).popped() + old(p).queued() == final(self).popped() + final(p).queued(),
            old(self).popped() == final(self).popped().take(old(self).popped().len() as int),
            old(self).taken() + old(p).buffered() == final(self).taken() + final(p).buffered(),
            walk::<T>(
                current_state(*old(self)),
                old(p).queued(),
                old(p).buffered(),
                old(self).popped(),
                *final(self),
                *final(p),
                r,
            ),
            r is NeedData ==> waits_for_bytes(*final(self), *final(p)),
            r matches Step::Ready(Some(Ok(item))) ==> (final(self).current() matches Some(c)
                && item.origin()@ == c.origin()@),
            r matches Step::Ready(Some(Err(Error::ResponseErr(q, _)))) ==> final(self).popped().len()
                > 0 && q == final(self).popped().last(),
            (r matches Step::Ready(None)) ==> final(p).queued().len() == 0 && final(self).current() is None,
            (r matches Step::Ready(Some(_))) ==> final(self).pending(*final(p)) < old(self).pending(*old(p))
                || (final(self).pending(*final(p)) == old(self).pending(*old(p)) && final(p).buffered().len()
                < old(p).buffered().len()),
    {
        loop
            invariant
                self.wf(),
                p.wf(),
                p.capacity() == old(p).capacity(),
                old(self).popped() + old(p).queued() == self.popped() + p.queued(),
                old(self).popped().len() <= self.popped().len(),
                old(self).popped() == self.popped().take(old(self).popped().len() as int),
                old(self).taken() + old(p).buffered() == self.taken() + p.buffered(),
                self.pending(*p) < old(self).pending(*old(p)) || (p.queued() == old(p).queued()
                    && (self.current is Some) == (old(self).current is Some) && p.buffered()
                    == old(p).buffered()),
                forall|w2: Responses, p2: Pipeline, r2: Step<Option<Result<ResponseItem<T>, Error>>>|
                    #[trigger] walk::<T>(current_state(*self), p.queued(), p.buffered(), self.popped(), w2, p2, r2)
                    ==> walk::<T>(
                    current_state(*old(self)),
                    old(p).queued(),
                    old(p).buffered(),
                    old(self).popped(),
                    w2,
                    p2,
                    r2,
                ),
            decreases self.pending(*p),
        {
            let ghost w0 = *self;
            let ghost p0 = *p;
            if let Some(r) = self.drive::<T>(p) {
                assert(old(self).popped() =~= self.popped().take(old(self).popped().len() as int));
                assert(walk::<T>(current_state(w0), p0.queued(), p0.buffered(), w0.popped(), *self, *p, r));
                return r;
            }
            proof {
                assert forall|w2: Responses, p2: Pipeline, r2: Step<Option<Result<ResponseItem<T>, Error>>>|
                    #[trigger] walk::<T>(current_state(*self), p.queued(), p.buffered(), self.popped(), w2, p2, r2)
                    implies walk::<T>(current_state(w0), p0.queued(), p0.buffered(), w0.popped(), w2, p2, r2) by {
                    if let Some(c) = w0.current() {
                        assert(current_state(*self) == None::<ReadState>);
                    }
                }
            }
            let ghost w1 = *self;
            let ghost p1 = *p;
            let a = self.advance::<T>(p);
            if let Some(r) = a {
                assert(old(self).popped() =~= self.popped().take(old(self).popped().len() as int));
                assert(walk::<T>(current_state(w1), p1.queued(), p1.buffered(), w1.popped(), *self, *p, r));
                return r;
            }
            proof {
                assert(old(self).popped() =~= self.popped().take(old(self).popped().len() as int));
                assert forall|w2: Responses, p2: Pipeline, r2: Step<Option<Result<ResponseItem<T>, Error>>>|
                    #[trigger] walk::<T>(current_state(*self), p.queued(), p.buffered(), self.popped(), w2, p2, r2)
                    implies walk::<T>(current_state(w1), p1.queued(), p1.buffered(), w1.popped(), w2, p2, r2) by {
                    let q = p1.queued();
                    if let Outcome::Done(n, pre) = spec_preamble(p1.buffered()) {
                        assert(current_state(*self) == Some((q[0], 0nat, data_len(pre), false)));
                    }
                }
            }
        }
    }
}

proof fn lemma_payload_bound(m: ReadState, s: Seq<u8>)
    ensures
        payload_len(m, s) matches Some(k) ==> k <= s.len(),
    decreases s.len(),
{
    if !(m.3 || !expects_data(m.0@) || m.2 == 0) && !(spec_end_of_response(s) is Done) && m.1 <= m.2 {
        if let Outcome::Done(n, _) = spec_frame(m.0@, s) {
            if 1 <= n && n <= s.len() {
                lemma_payload_bound((m.0, sat_add(m.1, n as nat), m.2, false), s.skip(n as int));
            }
        }
    }
}

/// In a state where a walk asks for bytes, the rest of the walk needs more
/// than the buffer holds.
proof fn lemma_waiting_walk(w: Responses, p: Pipeline)
    requires
        waits_for_bytes(w, p),
    ensures
        walked(current_state(w), p.queued(), p.buffered()) is None,
{
}

/// An item step takes its bytes out of the rest of the walk.
proof fn lemma_walked_drive(
    m: ReadState,
    qs: Seq<Query>,
    s: Seq<u8>,
    w1: Responses,
    p1: Pipeline,
    x: Step<Option<Result<ResponseItem<String>, Error>>>,
)
    requires
        !ends_at(m, s),
        drive_agrees(m, s, w1, p1, x),
        !(x is NeedData),
        s.len() <= usize::MAX,
    ensures
        p1.buffered().len() <= s.len(),
        p1.buffered() == s.skip(s.len() - p1.buffered().len()),
        (walked(Some(m), qs, s) is Some) == (walked(current_state(w1), qs, p1.buffered()) is Some),
        walked(Some(m), qs, s) is Some ==> walked(Some(m), qs, s)->0 == (s.len() - p1.buffered().len())
            + walked(current_state(w1), qs, p1.buffered())->0,
{
    if spec_end_of_response(s) is Done {
    } else if m.1 > m.2 {
        assert(s.skip(0) =~= s);
    } else {
        crate::query::lemma_frame_progress(m.0@, s);
        if let Outcome::Done(n, _) = spec_frame(m.0@, s) {
            let m1 = (m.0, sat_add(m.1, n as nat), m.2, false);
            let t = s.skip(n as int);
            lemma_payload_bound(m1, t);
            if let Some(k) = payload_len(m1, t) {
                assert(t.skip(k as int) =~= s.skip(k + n));
            }
        }
    }
}

/// Ending a response that has no more items takes its end marker, if any,
/// out of the rest of the walk.
proof fn lemma_walked_end(m: ReadState, qs: Seq<Query>, s: Seq<u8>)
    requires
        ends_at(m, s),
    ensures
        after_end_at(m, s).len() <= s.len(),
        after_end_at(m, s) == s.skip(s.len() - after_end_at(m, s).len()),
        (walked(Some(m), qs, s) is Some) == (walked(None, qs, after_end_at(m, s)) is Some),
        walked(Some(m), qs, s) is Some ==> walked(Some(m), qs, s)->0 == (s.len() - after_end_at(
            m,
            s,
        ).len()) + walked(None, qs, after_end_at(m, s))->0,
{
    assert(s.skip(0) =~= s);
}

/// Taking the next response off the pipeline takes its preamble out of the
/// rest of the walk.
proof fn lemma_walked_advance(
    w0: Responses,
    p0: Pipeline,
    w1: Responses,
    p1: Pipeline,
    a: Option<Step<Option<Result<ResponseItem<String>, Error>>>>,
)
    requires
        w0.current() is None,
        a matches Some(x) ==> pop_phase(p0.queued(), p0.buffered(), w0.popped(), w1, p1, x)
            && w1.current() is None && !(p0.queued().len() > 0 && (spec_preamble(p0.buffered())
            matches Outcome::Done(_, pre) && opens(pre, p0.queued()[0]))),
        a is None ==> ({
            let q = p0.queued();
            let s = p0.buffered();
            &&& q.len() > 0
            &&& spec_preamble(s) matches Outcome::Done(n, pre) && opens(pre, q[0]) && p1.buffered()
                == s.skip(n as int)
            &&& w1.current() matches Some(c) && c.origin() == q[0] && (spec_preamble(s) matches Outcome::Done(_, pre) && popped_agrees(q[0], s, pre, Some(Ok::<Response, Error>(c))))
            &&& p1.queued() == q.drop_first()
        }),
        !(a matches Some(Step::NeedData)),
    ensures
        p1.buffered().len() <= p0.buffered().len(),
        p1.buffered() == p0.buffered().skip(p0.buffered().len() - p1.buffered().len()),
        (walked(None, p0.queued(), p0.buffered()) is Some) == (walked(current_state(w1), p1.queued(), p1.buffered()) is Some),
        walked(None, p0.queued(), p0.buffered()) is Some ==> walked(None, p0.queued(), p0.buffered())->0
            == (p0.buffered().len() - p1.buffered().len()) + walked(current_state(w1), p1.queued(), p1.buffered())->0,
{
    let s = p0.buffered();
    lemma_preamble_within(s);
    assert(s.skip(0) =~= s);
    if a is None {
        if let Outcome::Done(n, pre) = spec_preamble(s) {
            let c = w1.current()->0;
            assert(state_of(c) == (p0.queued()[0], 0nat, data_len(pre), false));
        }
    }
}

impl Responses {
    /// Reads and drops every outstanding response, so that the pipeline can
    /// be used again. It finishes exactly when the buffer holds the rest of
    /// the current response and the responses to every queued query, and
    /// then leaves the buffer just past them.
    pub fn drain(&mut self, p: &mut Pipeline) -> (r: Step<()>)
        requires
            old(self).wf(),
            old(p).wf(),
        ensures
            final(self).wf(),
            final(p).wf(),
            final(p).capacity() == old(p).capacity(),
            old(self).popped() + old(p).queued() == final(self).popped() + final(p).queued(),
            old(self).taken() + old(p).buffered() == final(self).taken() + final(p).buffered(),
            r is Ready ==> final(p).queued().len() == 0 && final(self).current() is None,
            r is NeedData ==> waits_for_bytes(*final(self), *final(p)),
            (r is Ready) == (walked(current_state(*old(self)), old(p).queued(), old(p).buffered()) is Some),
            r is Ready ==> final(p).buffered() == old(p).buffered().skip(
                walked(current_state(*old(self)), old(p).queued(), old(p).buffered())->0 as int,
            ),
    {
        let ghost s0 = p.buffered();
        let ghost total = walked(current_state(*self), p.queued(), s0);
        let ghost mut d: int = 0;
        assert(s0.skip(0) =~= s0);
        loop
            invariant
                self.wf(),
                p.wf(),
                p.capacity() == old(p).capacity(),
                old(self).popped() + old(p).queued() == self.popped() + p.queued(),
                old(self).taken() + old(p).buffered() == self.taken() + p.buffered(),
                s0 == old(p).buffered(),
                total == walked(current_state(*old(self)), old(p).queued(), s0),
                0 <= d <= s0.len(),
                p.buffered() == s0.skip(d),
                (walked(current_state(*self), p.queued(), p.buffered()) is Some) == (total is Some),
                total is Some ==> total->0 == d + walked(current_state(*self), p.queued(), p.buffered())->0,
            decreases self.pending(*p), p.buffered().len(),
        {
            let ghost w0 = *self;
            let ghost p0 = *p;
            proof {
                p0.lemma_in_flight_bounded();
            }
            let dr = self.drive::<String>(p);
            match dr {
                Some(Step::NeedData) => {
                    proof {
                        lemma_waiting_walk(*self, *p);
                    }
                    return Step::NeedData;
                },
                Some(Step::Ready(_)) => {
                    proof {
                        lemma_walked_drive(state_of(w0.current()->0), p0.queued(), p0.buffered(), *self, *p, dr->0);
                        let e = p0.buffered().len() - p.buffered().len();
                        assert(s0.skip(d).skip(e) =~= s0.skip(d + e));
                        d = d + e;
                    }
                },
                None => {
                    let ghost w1 = *self;
                    let ghost p1 = *p;
                    proof {
                        if let Some(c) = w0.current() {
                            lemma_walked_end(state_of(c), p0.queued(), p0.buffered());
                            let e = p0.buffered().len() - p1.buffered().len();
                            assert(s0.skip(d).skip(e) =~= s0.skip(d + e));
                            d = d + e;
                        }
                    }
                    let a = self.advance::<String>(p);
                    match a {
                        Some(Step::NeedData) => {
                            proof {
                                lemma_waiting_walk(*self, *p);
                            }
                            return Step::NeedData;
                        },
                        _ => {},
                    }
                    proof {
                        lemma_walked_advance(w1, p1, *self, *p, a);
                        let e = p1.buffered().len() - p.buffered().len();
                        assert(s0.skip(d).skip(e) =~= s0.skip(d + e));
                        d = d + e;
                    }
                    if let Some(Step::Ready(None)) = a {
                        return Step::Ready(());
                    }
                },
            }
        }
    }
}

/// Items follow the order in which queries were pushed. A walk over the
/// responses of a pipeline onto which `pushed` was pushed keeps the
/// queries it has taken off and those still queued equal to `pushed`; so
/// an item of the walk's current response answers the query pushed at the
/// position of that response among those the walk has taken.
pub proof fn lemma_items_in_push_order(pushed: Seq<Query>, w: Responses, p: Pipeline, item_query: Query)
    requires
        w.wf(),
        w.popped() + p.queued() == pushed,
        w.current() matches Some(c) && item_query@ == c.origin()@,
    ensures
        1 <= w.popped().len() <= pushed.len(),
        item_query@ == pushed[w.popped().len() - 1]@,
{
    assert(pushed[w.popped().len() - 1] == (w.popped() + p.queued())[w.popped().len() - 1]);
}

/// A response that has been read to its end, other than by overrunning
/// its declared length or by a failure of the transport, took from the
/// buffer either nothing or bytes that end with the end-of-response marker:
/// the buffer is left where the next response begins.
pub proof fn lemma_finished_response_aligned(r: Response)
    requires
        r.wf(),
        r.is_finished(),
        !(r.ending() is Overrun),
        !(r.ending() is Abandoned),
    ensures
        r.taken() == Seq::<u8>::empty() || (r.taken().len() >= 3 && r.taken().skip(
            r.taken().len() - 3,
        ) == eor()),
{
}

} // verus!
