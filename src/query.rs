//! The catalogue of IRRd queries: their wire commands, whether the server
//! answers them with data, and how the items of that data are framed.

use vstd::prelude::*;
use vstd::slice::slice_subrange;
use vstd::string::StringExecFns;
use vstd::utf8::{decode_utf8, valid_utf8};

use crate::content::ItemContent;
use crate::error::Error;
use crate::parse::{
    all, eor, find_from, lemma_find_bounds, lemma_run_bound, noop, paragraph, spec_all, spec_end_of_response,
    spec_noop, spec_paragraph, spec_word, within, word, word_byte, space_byte, run_len, blank_line,
    lemma_find_before, lemma_run_stops, Outcome, NEWLINE,
};
use crate::text::{decimal, push_decimal, utf8_text};
use crate::types::{autnum_text, set_text, AsSet, AutNum, Mntner, NameComponent, RouteSet};

verus! {

/// RPSL object classes.
#[derive(Clone, Copy, Debug, PartialEq, Eq, Hash, Structural)]
pub enum RpslObjectClass {
    /// `mntner` object class.
    Mntner,
    /// `person` object class.
    Person,
    /// `role` object class.
    Role,
    /// `route` object class.
    Route,
    /// `route6` object class.
    Route6,
    /// `aut-num` object class.
    AutNum,
    /// `inet-rtr` object class.
    InetRtr,
    /// `as-set` object class.
    AsSet,
    /// `route-set` object class.
    RouteSet,
    /// `filter-set` object class.
    FilterSet,
    /// `rtr-set` object class.
    RtrSet,
    /// `peering-set` object class.
    PeeringSet,
}

/// The token that names an object class in a `!m` command.
pub open spec fn class_name(c: RpslObjectClass) -> Seq<char> {
    match c {
        RpslObjectClass::Mntner => "mntner"@,
        RpslObjectClass::Person => "person"@,
        RpslObjectClass::Role => "role"@,
        RpslObjectClass::Route => "route"@,
        RpslObjectClass::Route6 => "route6"@,
        RpslObjectClass::AutNum => "aut-num"@,
        RpslObjectClass::InetRtr => "inet-rtr"@,
        RpslObjectClass::AsSet => "as-set"@,
        RpslObjectClass::RouteSet => "route-set"@,
        RpslObjectClass::FilterSet => "filter-set"@,
        RpslObjectClass::RtrSet => "rtr-set"@,
        RpslObjectClass::PeeringSet => "peering-set"@,
    }
}

impl RpslObjectClass {
    /// The class token, as used in a `!m` command.
    pub fn name(&self) -> (r: &'static str)
        ensures
            r@ == class_name(*self),
    {
        match self {
            RpslObjectClass::Mntner => "mntner",
            RpslObjectClass::Person => "person",
            RpslObjectClass::Role => "role",
            RpslObjectClass::Route => "route",
            RpslObjectClass::Route6 => "route6",
            RpslObjectClass::AutNum => "aut-num",
            RpslObjectClass::InetRtr => "inet-rtr",
            RpslObjectClass::AsSet => "as-set",
            RpslObjectClass::RouteSet => "route-set",
            RpslObjectClass::FilterSet => "filter-set",
            RpslObjectClass::RtrSet => "rtr-set",
            RpslObjectClass::PeeringSet => "peering-set",
        }
    }
}

/// IRRd query variants.
#[derive(Clone, Debug, PartialEq, Eq)]
pub enum Query {
    /// Returns the current version of the server.
    Version,
    /// Identifies the client to the server.
    SetClientId(String),
    /// Sets the server-side timeout of the connection, in seconds.
    SetTimeout(u64),
    /// Returns the list of sources currently selected for query resolution.
    GetSources,
    /// Sets the list of sources to be used for subsequent query resolution.
    SetSources(Vec<String>),
    /// Re-sets the list of sources to all those available on the server.
    UnsetSources,
    /// Returns all (direct) members of an `as-set`.
    AsSetMembers(AsSet),
    /// Returns all members of an `as-set`, recursively expanded.
    AsSetMembersRecursive(AsSet),
    /// Returns all (direct) members of a `route-set`.
    RouteSetMembers(RouteSet),
    /// Returns all members of a `route-set`, recursively expanded.
    RouteSetMembersRecursive(RouteSet),
    /// Returns the IPv4 prefixes of `route` objects originated by the AS.
    Ipv4Routes(AutNum),
    /// Returns the IPv6 prefixes of `route6` objects originated by the AS.
    Ipv6Routes(AutNum),
    /// Returns the RPSL object of the class with exactly the key.
    RpslObject(RpslObjectClass, String),
    /// Returns all RPSL objects maintained by the maintainer.
    MntBy(Mntner),
    /// Returns the origins of `route`/`route6` objects exactly matching the prefix.
    Origins(String),
    /// Returns the `route`/`route6` objects exactly matching the prefix.
    RoutesExact(String),
    /// Returns the objects one level less specific, without exact matches.
    RoutesLess(String),
    /// Returns the objects one level less specific, with exact matches.
    RoutesLessEqual(String),
    /// Returns the objects one level more specific, without exact matches.
    RoutesMore(String),
}

/// A query as a value: each argument by its view.
pub enum QueryView {
    Version,
    SetClientId(Seq<char>),
    SetTimeout(u64),
    GetSources,
    SetSources(Seq<Seq<char>>),
    UnsetSources,
    AsSetMembers(Seq<NameComponent>),
    AsSetMembersRecursive(Seq<NameComponent>),
    RouteSetMembers(Seq<NameComponent>),
    RouteSetMembersRecursive(Seq<NameComponent>),
    Ipv4Routes(u32),
    Ipv6Routes(u32),
    RpslObject(RpslObjectClass, Seq<char>),
    MntBy(Seq<char>),
    Origins(Seq<char>),
    RoutesExact(Seq<char>),
    RoutesLess(Seq<char>),
    RoutesLessEqual(Seq<char>),
    RoutesMore(Seq<char>),
}

pub open spec fn string_views(v: Seq<String>) -> Seq<Seq<char>> {
    v.map_values(|s: String| s@)
}

impl View for Query {
    type V = QueryView;

    open spec fn view(&self) -> QueryView {
        match self {
            Query::Version => QueryView::Version,
            Query::SetClientId(id) => QueryView::SetClientId(id@),
            Query::SetTimeout(secs) => QueryView::SetTimeout(*secs),
            Query::GetSources => QueryView::GetSources,
            Query::SetSources(list) => QueryView::SetSources(string_views(list@)),
            Query::UnsetSources => QueryView::UnsetSources,
            Query::AsSetMembers(a) => QueryView::AsSetMembers(a@),
            Query::AsSetMembersRecursive(a) => QueryView::AsSetMembersRecursive(a@),
            Query::RouteSetMembers(r) => QueryView::RouteSetMembers(r@),
            Query::RouteSetMembersRecursive(r) => QueryView::RouteSetMembersRecursive(r@),
            Query::Ipv4Routes(a) => QueryView::Ipv4Routes(a.value()),
            Query::Ipv6Routes(a) => QueryView::Ipv6Routes(a.value()),
            Query::RpslObject(c, key) => QueryView::RpslObject(*c, key@),
            Query::MntBy(m) => QueryView::MntBy(m@),
            Query::Origins(p) => QueryView::Origins(p@),
            Query::RoutesExact(p) => QueryView::RoutesExact(p@),
            Query::RoutesLess(p) => QueryView::RoutesLess(p@),
            Query::RoutesLessEqual(p) => QueryView::RoutesLessEqual(p@),
            Query::RoutesMore(p) => QueryView::RoutesMore(p@),
        }
    }
}

/// The items of `list` joined by commas.
pub open spec fn comma_list(list: Seq<Seq<char>>) -> Seq<char>
    decreases list.len(),
{
    if list.len() == 0 {
        Seq::<char>::empty()
    } else if list.len() == 1 {
        list[0]
    } else {
        comma_list(list.drop_last()) + ","@ + list.last()
    }
}

/// The wire command of a query.
pub open spec fn command(q: QueryView) -> Seq<char> {
    match q {
        QueryView::Version => "!v\n"@,
        QueryView::SetClientId(id) => "!n"@ + id + "\n"@,
        QueryView::SetTimeout(secs) => "!t"@ + decimal(secs as nat) + "\n"@,
        QueryView::GetSources => "!s-lc\n"@,
        QueryView::SetSources(list) => "!s"@ + comma_list(list) + "\n"@,
        QueryView::UnsetSources => "!s-*\n"@,
        QueryView::AsSetMembers(a) => "!i"@ + set_text(a) + "\n"@,
        QueryView::AsSetMembersRecursive(a) => "!i"@ + set_text(a) + ",1\n"@,
        QueryView::RouteSetMembers(r) => "!i"@ + set_text(r) + "\n"@,
        QueryView::RouteSetMembersRecursive(r) => "!i"@ + set_text(r) + ",1\n"@,
        QueryView::Ipv4Routes(n) => "!g"@ + autnum_text(n) + "\n"@,
        QueryView::Ipv6Routes(n) => "!6"@ + autnum_text(n) + "\n"@,
        QueryView::RpslObject(c, key) => "!m"@ + class_name(c) + ","@ + key + "\n"@,
        QueryView::MntBy(m) => "!o"@ + m + "\n"@,
        QueryView::Origins(p) => "!r"@ + p + ",o\n"@,
        QueryView::RoutesExact(p) => "!r"@ + p + "\n"@,
        QueryView::RoutesLess(p) => "!r"@ + p + ",l\n"@,
        QueryView::RoutesLessEqual(p) => "!r"@ + p + ",L\n"@,
        QueryView::RoutesMore(p) => "!r"@ + p + ",M\n"@,
    }
}

/// Whether the server answers the query with a data payload.
pub open spec fn expects_data(q: QueryView) -> bool {
    !(q is SetClientId || q is SetTimeout || q is SetSources || q is UnsetSources)
}

/// How the items of a response's payload are framed.
pub enum Framing {
    Noop,
    All,
    Word,
    Paragraph,
}

pub open spec fn framing(q: QueryView) -> Framing {
    if !expects_data(q) {
        Framing::Noop
    } else if q is Version {
        Framing::All
    } else if q is RpslObject || q is MntBy || q is RoutesExact || q is RoutesLess
        || q is RoutesLessEqual || q is RoutesMore {
        Framing::Paragraph
    } else {
        Framing::Word
    }
}

/// The frame of the next item of a response to `q`.
pub open spec fn spec_frame(q: QueryView, s: Seq<u8>) -> Outcome<(usize, usize)> {
    match framing(q) {
        Framing::Noop => spec_noop(s),
        Framing::All => spec_all(s),
        Framing::Word => spec_word(s),
        Framing::Paragraph => spec_paragraph(s),
    }
}

/// Whether `r` is what reading the next item of a response to `q` from `s`
/// yields: the frame's outcome, and for a frame, its text decoded as UTF-8
/// and read as a `T`.
pub open spec fn item_agrees<T: ItemContent>(
    q: QueryView,
    s: Seq<u8>,
    r: Result<(usize, T), Error>,
) -> bool {
    match spec_frame(q, s) {
        Outcome::Incomplete => r == Err::<(usize, T), Error>(Error::Incomplete),
        Outcome::Invalid => r == Err::<(usize, T), Error>(Error::ParseErr),
        Outcome::Done(n, (a, b)) => {
            let bytes = s.subrange(a as int, b as int);
            let readable = valid_utf8(bytes) && T::accepts(decode_utf8(bytes));
            match r {
                Ok((m, v)) => readable && m == n && T::denotes(decode_utf8(bytes), v),
                Err(Error::ParseItem(m)) => !readable && m == n,
                _ => false,
            }
        },
    }
}

fn concat3(a: &str, b: &str, c: &str) -> (r: String)
    ensures
        r@ == a@ + b@ + c@,
{
    let mut out = String::from_str(a);
    out.append(b);
    out.append(c);
    out
}

fn join_sources(list: &Vec<String>) -> (r: String)
    ensures
        r@ == comma_list(string_views(list@)),
{
    let ghost items = string_views(list@);
    let mut out = String::new();
    let mut k: usize = 0;
    assert(items.take(0) =~= Seq::<Seq<char>>::empty());
    while k < list.len()
        invariant
            items == string_views(list@),
            k <= list@.len(),
            out@ == comma_list(items.take(k as int)),
        decreases list@.len() - k,
    {
        let ghost next = items.take(k + 1);
        assert(next.drop_last() =~= items.take(k as int));
        if k > 0 {
            out.append(",");
        }
        out.append(list[k].as_str());
        assert(out@ =~= comma_list(next));
        k += 1;
    }
    assert(items.take(list@.len() as int) =~= items);
    out
}

impl Query {
    /// Renders the wire command of the query.
    pub fn cmd(&self) -> (r: String)
        ensures
            r@ == command(self@),
    {
        match self {
            Query::Version => String::from_str("!v\n"),
            Query::SetClientId(id) => concat3("!n", id.as_str(), "\n"),
            Query::SetTimeout(secs) => {
                let mut out = String::from_str("!t");
                push_decimal(&mut out, *secs);
                out.append("\n");
                out
            },
            Query::GetSources => String::from_str("!s-lc\n"),
            Query::SetSources(list) => {
                let joined = join_sources(list);
                concat3("!s", joined.as_str(), "\n")
            },
            Query::UnsetSources => String::from_str("!s-*\n"),
            Query::AsSetMembers(a) => {
                let t = a.to_text();
                concat3("!i", t.as_str(), "\n")
            },
            Query::AsSetMembersRecursive(a) => {
                let t = a.to_text();
                concat3("!i", t.as_str(), ",1\n")
            },
            Query::RouteSetMembers(r) => {
                let t = r.to_text();
                concat3("!i", t.as_str(), "\n")
            },
            Query::RouteSetMembersRecursive(r) => {
                let t = r.to_text();
                concat3("!i", t.as_str(), ",1\n")
            },
            Query::Ipv4Routes(a) => {
                let t = a.to_text();
                concat3("!g", t.as_str(), "\n")
            },
            Query::Ipv6Routes(a) => {
                let t = a.to_text();
                concat3("!6", t.as_str(), "\n")
            },
            Query::RpslObject(c, key) => {
                let mut out = concat3("!m", c.name(), ",");
                out.append(key.as_str());
                out.append("\n");
                out
            },
            Query::MntBy(m) => {
                let t = m.to_text();
                concat3("!o", t.as_str(), "\n")
            },
            Query::Origins(p) => concat3("!r", p.as_str(), ",o\n"),
            Query::RoutesExact(p) => concat3("!r", p.as_str(), "\n"),
            Query::RoutesLess(p) => concat3("!r", p.as_str(), ",l\n"),
            Query::RoutesLessEqual(p) => concat3("!r", p.as_str(), ",L\n"),
            Query::RoutesMore(p) => concat3("!r", p.as_str(), ",M\n"),
        }
    }

    /// Whether the server answers this query with a data payload.
    pub fn expect_data(&self) -> (r: bool)
        ensures
            r == expects_data(self@),
    {
        match self {
            Query::SetClientId(_) | Query::SetTimeout(_) | Query::SetSources(_)
            | Query::UnsetSources => false,
            _ => true,
        }
    }

    /// A copy of the query, argument by argument.
    pub fn duplicate(&self) -> (r: Query)
        ensures
            r@ == self@,
    {
        match self {
            Query::Version => Query::Version,
            Query::SetClientId(id) => Query::SetClientId(id.clone()),
            Query::SetTimeout(secs) => Query::SetTimeout(*secs),
            Query::GetSources => Query::GetSources,
            Query::SetSources(list) => {
                let mut out: Vec<String> = Vec::new();
                let mut k: usize = 0;
                while k < list.len()
                    invariant
                        k <= list@.len(),
                        string_views(out@) =~= string_views(list@).take(k as int),
                    decreases list@.len() - k,
                {
                    let s = list[k].clone();
                    assert(string_views(out@.push(s)) =~= string_views(out@).push(s@));
                    out.push(s);
                    k += 1;
                }
                assert(string_views(list@).take(list@.len() as int) =~= string_views(list@));
                Query::SetSources(out)
            },
            Query::UnsetSources => Query::UnsetSources,
            Query::AsSetMembers(a) => Query::AsSetMembers(a.duplicate()),
            Query::AsSetMembersRecursive(a) => Query::AsSetMembersRecursive(a.duplicate()),
            Query::RouteSetMembers(r) => Query::RouteSetMembers(r.duplicate()),
            Query::RouteSetMembersRecursive(r) => Query::RouteSetMembersRecursive(r.duplicate()),
            Query::Ipv4Routes(a) => Query::Ipv4Routes(*a),
            Query::Ipv6Routes(a) => Query::Ipv6Routes(*a),
            Query::RpslObject(c, key) => Query::RpslObject(*c, key.clone()),
            Query::MntBy(m) => Query::MntBy(m.duplicate()),
            Query::Origins(p) => Query::Origins(p.clone()),
            Query::RoutesExact(p) => Query::RoutesExact(p.clone()),
            Query::RoutesLess(p) => Query::RoutesLess(p.clone()),
            Query::RoutesLessEqual(p) => Query::RoutesLessEqual(p.clone()),
            Query::RoutesMore(p) => Query::RoutesMore(p.clone()),
        }
    }

    /// Frames the next item of a response to this query.
    pub fn frame(&self, input: &[u8]) -> (r: Outcome<(usize, usize)>)
        ensures
            r == spec_frame(self@, input@),
            within(r, input@.len()),
    {
        if !self.expect_data() {
            return noop(input);
        }
        match self {
            Query::Version => all(input),
            Query::RpslObject(..) | Query::MntBy(_) | Query::RoutesExact(_) | Query::RoutesLess(_)
            | Query::RoutesLessEqual(_) | Query::RoutesMore(_) => paragraph(input),
            _ => word(input),
        }
    }

    /// Reads the next item of a response to this query from `input`: the
    /// bytes it spans and its content.
    pub fn parse_item<T: ItemContent>(&self, input: &[u8]) -> (r: Result<(usize, T), Error>)
        ensures
            item_agrees(self@, input@, r),
            r matches Ok((n, _)) ==> n <= input@.len(),
            r matches Err(Error::ParseItem(n)) ==> n <= input@.len(),
    {
        match self.frame(input) {
            Outcome::Incomplete => Err(Error::Incomplete),
            Outcome::Invalid => Err(Error::ParseErr),
            Outcome::Done(n, (a, b)) => match utf8_text(slice_subrange(input, a, b)) {
                Some(text) => match T::from_text(text.as_str()) {
                    Some(v) => Ok((n, v)),
                    None => Err(Error::ParseItem(n)),
                },
                None => Err(Error::ParseItem(n)),
            },
        }
    }
}

/// Away from the end-of-response marker, an item of a response that
/// carries data spans at least one byte.
pub proof fn lemma_frame_progress(q: QueryView, s: Seq<u8>)
    requires
        expects_data(q),
        !(spec_end_of_response(s) is Done),
        s.len() <= usize::MAX,
    ensures
        spec_frame(q, s) matches Outcome::Done(n, _) ==> 1 <= n && n <= s.len(),
{
    lemma_find_bounds(s, eor(), 0);
    lemma_find_bounds(s, eor(), 1);
    lemma_find_bounds(s, blank_line(), 0);
    lemma_find_bounds(s, blank_line(), 1);
    if find_from(s, eor(), 0) == Some(0int) {
        assert(s.take(3) =~= s.subrange(0, 3));
    }
    match framing(q) {
        Framing::All => {},
        Framing::Word => {
            lemma_run_bound(s, word_byte());
            let w = run_len(s, word_byte());
            if w <= s.len() {
                lemma_run_bound(s.skip(w as int), space_byte());
            }
        },
        Framing::Paragraph => {
            if s.len() > 0 && s[0] != NEWLINE {
                if let Some(e) = find_from(s, eor(), 0) {
                    if e == 0 {
                        assert(s.take(3) =~= s.subrange(0, 3));
                    }
                }
            }
        },
        Framing::Noop => {},
    }
}

/// `std::iter::Once`, the iterator that a single query turns into.
#[verifier::external_type_specification]
#[verifier::external_body]
#[verifier::reject_recursive_types(T)]
pub struct ExOnce<T>(std::iter::Once<T>);

/// Relies on `std::iter::once`: an iterator that yields its argument once.
#[verifier::external_body]
fn once_of(q: Query) -> std::iter::Once<Query> {
    std::iter::once(q)
}

impl IntoIterator for Query {
    type Item = Query;

    type IntoIter = std::iter::Once<Query>;

    fn into_iter(self) -> std::iter::Once<Query> {
        once_of(self)
    }
}

/// Reading a response whose payload is as long as its preamble declared
/// keeps the count of payload bytes read below the declared length: when
/// `seen` bytes have been read and the buffer holds the `rest` of the
/// payload, then the end-of-response marker, the item framed next spans no
/// more than that rest. (The declared length counts the newline that opens
/// the marker.)
pub proof fn lemma_seen_within_expect(q: QueryView, seen: nat, expect: nat, rest: Seq<u8>, after: Seq<u8>)
    requires
        expects_data(q),
        seen + rest.len() + 1 == expect,
        rest.len() > 0,
        (rest + eor() + after).len() <= usize::MAX,
    ensures
        spec_frame(q, rest + eor() + after) matches Outcome::Done(n, _) ==> seen + n < expect,
{
    let s = rest + eor() + after;
    let m = rest.len() as int;
    assert(s.subrange(m, m + 3) =~= eor());
    assert(s[m] == NEWLINE);
    lemma_find_before(s, eor(), 0, m);
    lemma_find_before(s, eor(), 1, m);
    lemma_find_bounds(s, eor(), 0);
    lemma_find_bounds(s, eor(), 1);
    lemma_find_bounds(s, blank_line(), 0);
    lemma_find_bounds(s, blank_line(), 1);
    match framing(q) {
        Framing::Word => {
            lemma_run_stops(s, word_byte(), m);
            let w = run_len(s, word_byte()) as int;
            let t = s.skip(w);
            assert(t[m - w] == s[m]);
            lemma_run_stops(t, space_byte(), m - w);
        },
        _ => {},
    }
}

} // verus!
