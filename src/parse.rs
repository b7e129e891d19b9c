//! Framing of the server's byte stream: response preambles, the
//! end-of-response marker, and the items of a payload.
//!
//! Every parser is incremental: given a prefix of the stream it either
//! recognises a frame and says how many bytes it spans, or says that more
//! bytes are needed, or that no extension of the input can match.

use vstd::prelude::*;
use vstd::slice::slice_subrange;
use vstd::utf8::{decode_utf8, valid_utf8};

use crate::error::Response;
use crate::text::utf8_text;

verus! {

pub const NEWLINE: u8 = 10;

pub const SPACE: u8 = 32;

/// What a parser makes of a prefix of the stream.
#[derive(Debug, PartialEq, Eq)]
pub enum Outcome<T> {
    /// A frame of this many bytes was recognised, with its value.
    Done(usize, T),
    /// The input is a proper prefix of a frame: more bytes are needed.
    Incomplete,
    /// The input cannot begin a frame.
    Invalid,
}

/// The end-of-response marker `\nC\n`.
pub open spec fn eor() -> Seq<u8> {
    seq![NEWLINE, 67u8, NEWLINE]
}

/// The blank line `\n\n` that ends a paragraph.
pub open spec fn blank_line() -> Seq<u8> {
    seq![NEWLINE, NEWLINE]
}

/// The number of leading bytes of `s` that satisfy `keep`.
pub open spec fn run_len(s: Seq<u8>, keep: spec_fn(u8) -> bool) -> nat
    decreases s.len(),
{
    if s.len() > 0 && keep(s[0]) {
        1 + run_len(s.drop_first(), keep)
    } else {
        0
    }
}

pub open spec fn is_word_end(b: u8) -> bool {
    b == SPACE || b == NEWLINE
}

pub open spec fn word_byte() -> spec_fn(u8) -> bool {
    |b: u8| !is_word_end(b)
}

pub open spec fn space_byte() -> spec_fn(u8) -> bool {
    |b: u8| b == SPACE
}

pub open spec fn digit_byte() -> spec_fn(u8) -> bool {
    |b: u8| 48 <= b <= 57
}

pub open spec fn line_byte() -> spec_fn(u8) -> bool {
    |b: u8| b != NEWLINE
}

/// The first index at or after `i` where `pat` occurs in `s`.
pub open spec fn find_from(s: Seq<u8>, pat: Seq<u8>, i: int) -> Option<int>
    decreases s.len() + 1 - i,
{
    if i < 0 || i + pat.len() > s.len() {
        None
    } else if s.subrange(i, i + pat.len()) == pat {
        Some(i)
    } else {
        find_from(s, pat, i + 1)
    }
}

/// The value of a numeral of decimal digits.
pub open spec fn decimal_value(d: Seq<u8>) -> nat
    decreases d.len(),
{
    if d.len() == 0 {
        0
    } else {
        decimal_value(d.drop_last()) * 10 + (d.last() - 48) as nat
    }
}

proof fn lemma_run_len(s: Seq<u8>, keep: spec_fn(u8) -> bool, i: int)
    requires
        0 <= i <= s.len(),
        forall|j: int| 0 <= j < i ==> keep(#[trigger] s[j]),
        i == s.len() || !keep(s[i]),
    ensures
        run_len(s, keep) == i,
    decreases i,
{
    if i > 0 {
        assert forall|j: int| 0 <= j < i - 1 implies keep(#[trigger] s.drop_first()[j]) by {
            assert(s.drop_first()[j] == s[j + 1]);
        }
        lemma_run_len(s.drop_first(), keep, i - 1);
    }
}

/// Counts the bytes from `from` on that satisfy `keep`; the loop body's test
/// is `keep` itself.
proof fn lemma_run_from(s: Seq<u8>, keep: spec_fn(u8) -> bool, from: int, i: int)
    requires
        0 <= from <= i <= s.len(),
        forall|j: int| from <= j < i ==> keep(#[trigger] s[j]),
        i == s.len() || !keep(s[i]),
    ensures
        run_len(s.skip(from), keep) == i - from,
{
    let t = s.skip(from);
    assert forall|j: int| 0 <= j < i - from implies keep(#[trigger] t[j]) by {
        assert(t[j] == s[j + from]);
    }
    if i < s.len() {
        assert(t[i - from] == s[i]);
    }
    lemma_run_len(t, keep, i - from);
}

/// Whether `pat` occurs in `s` at `i`.
fn matches_at(s: &[u8], i: usize, pat: &[u8]) -> (r: bool)
    requires
        i + pat@.len() <= s@.len(),
    ensures
        r == (s@.subrange(i as int, i + pat@.len()) == pat@),
{
    let slen = s.len();
    let mut j: usize = 0;
    while j < pat.len()
        invariant
            slen == s@.len(),
            i + pat@.len() <= s@.len(),
            j <= pat@.len(),
            forall|k: int| 0 <= k < j ==> s@[i + k] == pat@[k],
        decreases pat@.len() - j,
    {
        if s[i + j] != pat[j] {
            assert(s@.subrange(i as int, i + pat@.len())[j as int] != pat@[j as int]);
            return false;
        }
        j += 1;
    }
    assert(s@.subrange(i as int, i + pat@.len()) =~= pat@);
    true
}

/// The first occurrence of `pat` in `s` at or after `from`.
fn find(s: &[u8], pat: &[u8], from: usize) -> (r: Option<usize>)
    requires
        pat@.len() > 0,
    ensures
        match r {
            Some(i) => find_from(s@, pat@, from as int) == Some(i as int),
            None => find_from(s@, pat@, from as int) is None,
        },
{
    if pat.len() > s.len() || from > s.len() - pat.len() {
        return None;
    }
    let slen = s.len();
    let last = slen - pat.len();
    let mut i = from;
    while i <= last
        invariant
            pat@.len() > 0,
            slen == s@.len(),
            from <= i,
            last + pat@.len() == s@.len(),
            i <= last + 1,
            find_from(s@, pat@, from as int) == find_from(s@, pat@, i as int),
        decreases last + 1 - i,
    {
        if matches_at(s, i, pat) {
            return Some(i);
        }
        i += 1;
    }
    None
}

/// A successful frame spans a prefix of the input, and its value is a span
/// within that prefix.
pub open spec fn within(r: Outcome<(usize, usize)>, len: nat) -> bool {
    r matches Outcome::Done(n, (a, b)) ==> a <= b <= n <= len
}

/// The end-of-response marker, as a spec-level outcome.
pub open spec fn spec_end_of_response(s: Seq<u8>) -> Outcome<()> {
    if s.len() >= 3 && s.take(3) == eor() {
        Outcome::Done(3, ())
    } else if s.len() < 3 && s == eor().take(s.len() as int) {
        Outcome::Incomplete
    } else {
        Outcome::Invalid
    }
}

/// Recognises the end-of-response marker at the head of `input`.
pub fn end_of_response(input: &[u8]) -> (r: Outcome<()>)
    ensures
        r == spec_end_of_response(input@),
{
    let marker: [u8; 3] = [NEWLINE, 67u8, NEWLINE];
    assert(marker@ == eor());
    let n = if input.len() < 3 { input.len() } else { 3 };
    let mut j: usize = 0;
    while j < n
        invariant
            n <= 3,
            n <= input@.len(),
            n == 3 || n == input@.len(),
            marker@ == eor(),
            j <= n,
            forall|k: int| 0 <= k < j ==> input@[k] == eor()[k],
        decreases n - j,
    {
        if input[j] != marker[j] {
            assert(input@.take(n as int)[j as int] != eor().take(n as int)[j as int]);
            if n == 3 {
                assert(input@.take(3)[j as int] != eor()[j as int]);
            }
            return Outcome::Invalid;
        }
        j += 1;
    }
    if n == 3 {
        assert(input@.take(3) =~= eor());
        Outcome::Done(3, ())
    } else {
        assert(input@ =~= eor().take(input@.len() as int));
        Outcome::Incomplete
    }
}

/// A word: bytes up to the first space or newline, then any spaces.
pub open spec fn spec_word(s: Seq<u8>) -> Outcome<(usize, usize)> {
    let w = run_len(s, word_byte());
    if w == s.len() {
        Outcome::Incomplete
    } else if w == 0 {
        Outcome::Invalid
    } else {
        let sp = run_len(s.skip(w as int), space_byte());
        if w + sp == s.len() {
            Outcome::Incomplete
        } else {
            Outcome::Done((w + sp) as usize, (0usize, w as usize))
        }
    }
}

/// Frames one word; its value is the span of the word within `input`.
pub fn word(input: &[u8]) -> (r: Outcome<(usize, usize)>)
    ensures
        r == spec_word(input@),
        within(r, input@.len()),
{
    let mut w: usize = 0;
    while w < input.len() && input[w] != SPACE && input[w] != NEWLINE
        invariant
            w <= input@.len(),
            forall|j: int| 0 <= j < w ==> word_byte()(#[trigger] input@[j]),
        decreases input@.len() - w,
    {
        w += 1;
    }
    proof {
        lemma_run_len(input@, word_byte(), w as int);
    }
    if w == input.len() {
        return Outcome::Incomplete;
    }
    if w == 0 {
        return Outcome::Invalid;
    }
    let mut e: usize = w;
    while e < input.len() && input[e] == SPACE
        invariant
            w <= e <= input@.len(),
            forall|j: int| w <= j < e ==> space_byte()(#[trigger] input@[j]),
        decreases input@.len() - e,
    {
        e += 1;
    }
    proof {
        lemma_run_from(input@, space_byte(), w as int, e as int);
    }
    if e == input.len() {
        Outcome::Incomplete
    } else {
        Outcome::Done(e, (0, w))
    }
}

/// Everything up to the end-of-response marker.
pub open spec fn spec_all(s: Seq<u8>) -> Outcome<(usize, usize)> {
    match find_from(s, eor(), 0) {
        Some(e) => Outcome::Done(e as usize, (0usize, e as usize)),
        None => Outcome::Incomplete,
    }
}

/// Frames the whole remaining payload.
pub fn all(input: &[u8]) -> (r: Outcome<(usize, usize)>)
    ensures
        r == spec_all(input@),
        within(r, input@.len()),
{
    let marker: [u8; 3] = [NEWLINE, 67u8, NEWLINE];
    assert(marker@ == eor());
    let found = find(input, &marker, 0);
    proof {
        lemma_find_bounds(input@, eor(), 0);
    }
    match found {
        Some(e) => Outcome::Done(e, (0, e)),
        None => Outcome::Incomplete,
    }
}

/// The frame of a query that expects no data: nothing at all.
pub open spec fn spec_noop(s: Seq<u8>) -> Outcome<(usize, usize)> {
    Outcome::Done(0, (0usize, 0usize))
}

/// Frames nothing, consuming no bytes.
pub fn noop(input: &[u8]) -> (r: Outcome<(usize, usize)>)
    ensures
        r == spec_noop(input@),
        within(r, input@.len()),
{
    Outcome::Done(0, (0, 0))
}

/// A paragraph: after an optional leading newline, the bytes up to the
/// first blank line (whose first newline is consumed too) or, where the
/// end-of-response marker comes first, up to that marker.
pub open spec fn spec_paragraph(s: Seq<u8>) -> Outcome<(usize, usize)> {
    if s.len() == 0 {
        Outcome::Incomplete
    } else {
        let lead: int = if s[0] == NEWLINE { 1 } else { 0 };
        match (find_from(s, blank_line(), lead), find_from(s, eor(), lead)) {
            (Some(p), Some(e)) => if p < e {
                Outcome::Done((p + 1) as usize, (lead as usize, p as usize))
            } else {
                Outcome::Done(e as usize, (lead as usize, e as usize))
            },
            (Some(p), None) => Outcome::Done((p + 1) as usize, (lead as usize, p as usize)),
            (None, Some(e)) => Outcome::Done(e as usize, (lead as usize, e as usize)),
            (None, None) => Outcome::Incomplete,
        }
    }
}

/// Frames one paragraph; its value is the span of its text within `input`.
pub fn paragraph(input: &[u8]) -> (r: Outcome<(usize, usize)>)
    ensures
        r == spec_paragraph(input@),
        within(r, input@.len()),
{
    if input.len() == 0 {
        return Outcome::Incomplete;
    }
    let lead: usize = if input[0] == NEWLINE { 1 } else { 0 };
    let blank: [u8; 2] = [NEWLINE, NEWLINE];
    let marker: [u8; 3] = [NEWLINE, 67u8, NEWLINE];
    assert(blank@ == blank_line());
    assert(marker@ == eor());
    let p = find(input, &blank, lead);
    let e = find(input, &marker, lead);
    proof {
        lemma_find_bounds(input@, blank_line(), lead as int);
        lemma_find_bounds(input@, eor(), lead as int);
    }
    match (p, e) {
        (Some(p), Some(e)) => if p < e {
            Outcome::Done(p + 1, (lead, p))
        } else {
            Outcome::Done(e, (lead, e))
        },
        (Some(p), None) => Outcome::Done(p + 1, (lead, p)),
        (None, Some(e)) => Outcome::Done(e, (lead, e)),
        (None, None) => Outcome::Incomplete,
    }
}

/// A match found from `i` on lies within `s`, at or after `i`.
pub proof fn lemma_find_bounds(s: Seq<u8>, pat: Seq<u8>, i: int)
    ensures
        find_from(s, pat, i) matches Some(k) ==> i <= k && k + pat.len() <= s.len()
            && s.subrange(k, k + pat.len()) == pat,
    decreases s.len() + 1 - i,
{
    if !(i < 0 || i + pat.len() > s.len()) && s.subrange(i, i + pat.len()) != pat {
        lemma_find_bounds(s, pat, i + 1);
    }
}

/// The status that a preamble declares; `Other` holds the span of the
/// server's message.
#[derive(Debug, PartialEq, Eq)]
pub enum Preamble {
    Data(usize),
    NoData,
    KeyNotFound,
    KeyNotUnique,
    Other(usize, usize),
}

/// A response preamble: `A<decimal>\n`, `C\n`, `D\n`, `E\n` or
/// `F <message>\n`, where the message is valid UTF-8.
pub open spec fn spec_preamble(s: Seq<u8>) -> Outcome<Preamble> {
    if s.len() == 0 {
        Outcome::Incomplete
    } else if s[0] == 65u8 {
        let d: int = run_len(s.skip(1), digit_byte()) as int;
        if 1 + d == s.len() {
            Outcome::Incomplete
        } else if d == 0 || s[1 + d] != NEWLINE {
            Outcome::Invalid
        } else if decimal_value(s.subrange(1, 1 + d)) > usize::MAX {
            Outcome::Invalid
        } else {
            Outcome::Done((d + 2) as usize, Preamble::Data(decimal_value(s.subrange(1, 1 + d)) as usize))
        }
    } else if s[0] == 67u8 || s[0] == 68u8 || s[0] == 69u8 {
        if s.len() == 1 {
            Outcome::Incomplete
        } else if s[1] != NEWLINE {
            Outcome::Invalid
        } else if s[0] == 67u8 {
            Outcome::Done(2, Preamble::NoData)
        } else if s[0] == 68u8 {
            Outcome::Done(2, Preamble::KeyNotFound)
        } else {
            Outcome::Done(2, Preamble::KeyNotUnique)
        }
    } else if s[0] == 70u8 {
        if s.len() == 1 {
            Outcome::Incomplete
        } else if s[1] != SPACE {
            Outcome::Invalid
        } else {
            let m: int = run_len(s.skip(2), line_byte()) as int;
            if 2 + m == s.len() {
                Outcome::Incomplete
            } else if !valid_utf8(s.subrange(2, 2 + m)) {
                Outcome::Invalid
            } else {
                Outcome::Done((m + 3) as usize, Preamble::Other(2, (2 + m) as usize))
            }
        }
    } else {
        Outcome::Invalid
    }
}

/// Whether the result of the preamble parser on `s` is `spec_preamble(s)`,
/// with the server's message decoded.
pub open spec fn preamble_agrees(s: Seq<u8>, r: Outcome<Result<Option<usize>, Response>>) -> bool {
    match (spec_preamble(s), r) {
        (Outcome::Incomplete, Outcome::Incomplete) => true,
        (Outcome::Invalid, Outcome::Invalid) => true,
        (Outcome::Done(n, p), Outcome::Done(m, v)) => n == m && match (p, v) {
            (Preamble::Data(l), Ok(Some(k))) => l == k,
            (Preamble::NoData, Ok(None)) => true,
            (Preamble::KeyNotFound, Err(Response::KeyNotFound)) => true,
            (Preamble::KeyNotUnique, Err(Response::KeyNotUnique)) => true,
            (Preamble::Other(a, b), Err(Response::Other(msg))) => msg@ == decode_utf8(
                s.subrange(a as int, b as int),
            ),
            _ => false,
        },
        _ => false,
    }
}

/// Parses a response preamble at the head of `input`.
pub fn response_status(input: &[u8]) -> (r: Outcome<Result<Option<usize>, Response>>)
    ensures
        preamble_agrees(input@, r),
{
    let len = input.len();
    if len == 0 {
        return Outcome::Incomplete;
    }
    let first = input[0];
    if first == 65u8 {
        let mut i: usize = 1;
        let mut value: usize = 0;
        let mut overflow = false;
        while i < len && 48u8 <= input[i] && input[i] <= 57u8
            invariant
                len == input@.len(),
                1 <= i <= len,
                forall|j: int| 1 <= j < i ==> digit_byte()(#[trigger] input@[j]),
                !overflow ==> value == decimal_value(input@.subrange(1, i as int)),
                overflow ==> decimal_value(input@.subrange(1, i as int)) > usize::MAX,
            decreases len - i,
        {
            let ghost prev = input@.subrange(1, i as int);
            let ghost next = input@.subrange(1, i + 1);
            assert(next.drop_last() =~= prev);
            let digit = (input[i] - 48u8) as usize;
            if !overflow {
                if value <= (usize::MAX - digit) / 10 {
                    assert(value * 10 + digit <= usize::MAX) by (nonlinear_arith)
                        requires value <= (usize::MAX - digit) / 10, digit <= 9;
                    value = value * 10 + digit;
                } else {
                    assert(value * 10 + digit > usize::MAX) by (nonlinear_arith)
                        requires value > (usize::MAX - digit) / 10, digit <= 9;
                    overflow = true;
                }
            } else {
                assert(decimal_value(next) >= decimal_value(prev)) by (nonlinear_arith)
                    requires decimal_value(next) == decimal_value(prev) * 10 + (next.last() - 48) as nat;
            }
            i += 1;
        }
        proof {
            lemma_run_from(input@, digit_byte(), 1, i as int);
        }
        if i == len {
            return Outcome::Incomplete;
        }
        if i == 1 || input[i] != NEWLINE {
            return Outcome::Invalid;
        }
        if overflow {
            return Outcome::Invalid;
        }
        return Outcome::Done(i + 1, Ok(Some(value)));
    }
    if first == 67u8 || first == 68u8 || first == 69u8 {
        if len == 1 {
            return Outcome::Incomplete;
        }
        if input[1] != NEWLINE {
            return Outcome::Invalid;
        }
        return if first == 67u8 {
            Outcome::Done(2, Ok(None))
        } else if first == 68u8 {
            Outcome::Done(2, Err(Response::KeyNotFound))
        } else {
            Outcome::Done(2, Err(Response::KeyNotUnique))
        };
    }
    if first == 70u8 {
        if len == 1 {
            return Outcome::Incomplete;
        }
        if input[1] != SPACE {
            return Outcome::Invalid;
        }
        let mut i: usize = 2;
        while i < len && input[i] != NEWLINE
            invariant
                len == input@.len(),
                2 <= i <= len,
                forall|j: int| 2 <= j < i ==> line_byte()(#[trigger] input@[j]),
            decreases len - i,
        {
            i += 1;
        }
        proof {
            lemma_run_from(input@, line_byte(), 2, i as int);
        }
        if i == len {
            return Outcome::Incomplete;
        }
        return match utf8_text(slice_subrange(input, 2, i)) {
            Some(msg) => Outcome::Done(i + 1, Err(Response::Other(msg))),
            None => Outcome::Invalid,
        };
    }
    Outcome::Invalid
}

/// A recognised preamble spans a prefix of the input.
pub proof fn lemma_preamble_within(s: Seq<u8>)
    ensures
        spec_preamble(s) matches Outcome::Done(n, _) ==> n <= s.len(),
{
    let d = run_len(s.skip(1), digit_byte());
    let m = run_len(s.skip(2), line_byte());
    if s.len() > 1 {
        lemma_run_bound(s.skip(1), digit_byte());
    }
    if s.len() > 2 {
        lemma_run_bound(s.skip(2), line_byte());
    }
}

pub proof fn lemma_run_bound(s: Seq<u8>, keep: spec_fn(u8) -> bool)
    ensures
        run_len(s, keep) <= s.len(),
    decreases s.len(),
{
    if s.len() > 0 && keep(s[0]) {
        lemma_run_bound(s.drop_first(), keep);
    }
}

/// A run stops at the first byte that does not satisfy `keep`.
pub proof fn lemma_run_stops(s: Seq<u8>, keep: spec_fn(u8) -> bool, i: int)
    requires
        0 <= i < s.len(),
        !keep(s[i]),
    ensures
        run_len(s, keep) <= i,
    decreases i,
{
    if i > 0 && keep(s[0]) {
        assert(s.drop_first()[i - 1] == s[i]);
        lemma_run_stops(s.drop_first(), keep, i - 1);
    }
}

/// Where `pat` occurs at `i`, a search from before `i` finds it there or
/// earlier.
pub proof fn lemma_find_before(s: Seq<u8>, pat: Seq<u8>, from: int, i: int)
    requires
        0 <= from <= i,
        i + pat.len() <= s.len(),
        s.subrange(i, i + pat.len()) == pat,
    ensures
        find_from(s, pat, from) matches Some(k) && k <= i,
    decreases i - from,
{
    if s.subrange(from, from + pat.len()) != pat {
        lemma_find_before(s, pat, from + 1, i);
    }
}

} // verus!
