//! RPSL names: autonomous system numbers, `as-set` and `route-set` names,
//! and maintainers, with their grammar and their canonical text.

use vstd::prelude::*;
use vstd::string::{StrSliceExecFns, StringExecFns, StringSliceAdditionalSpecFns};
use vstd::utf8::is_ascii_chars;

use crate::parse::decimal_value;
use crate::text::{decimal, push_decimal};

verus! {

broadcast use vstd::string::group_string_axioms;

/// The ASCII codes of the characters of `t`.
pub open spec fn codes(t: Seq<char>) -> Seq<u8> {
    t.map_values(|c: char| c as u8)
}

/// Whether the byte `c` may appear in an RPSL name.
pub open spec fn is_name_byte(c: u8) -> bool {
    (97 <= c && c <= 122) || (65 <= c && c <= 90) || (48 <= c && c <= 57) || c == 45 || c == 95
}

/// The number named by an `aut-num` text: `AS` in any case, then decimal
/// digits whose value fits in 32 bits.
pub open spec fn spec_autnum(t: Seq<char>) -> Option<u32> {
    let c = codes(t);
    if is_ascii_chars(t) && c.len() >= 3 && (c[0] == 65 || c[0] == 97) && (c[1] == 83 || c[1] == 115)
        && (forall|i: int| 2 <= i < c.len() ==> 48 <= #[trigger] c[i] && c[i] <= 57)
        && decimal_value(c.skip(2)) <= u32::MAX {
        Some(decimal_value(c.skip(2)) as u32)
    } else {
        None
    }
}

/// Whether `t` is a set name: the letter `upper`/`lower` and `S` (in any
/// case), a `-`, then one or more name characters.
pub open spec fn is_set_name(t: Seq<char>, upper: u8, lower: u8) -> bool {
    let c = codes(t);
    &&& is_ascii_chars(t)
    &&& c.len() >= 4
    &&& c[0] == upper || c[0] == lower
    &&& c[1] == 83 || c[1] == 115
    &&& c[2] == 45
    &&& forall|i: int| 3 <= i < c.len() ==> is_name_byte(#[trigger] c[i])
}

/// One component of a hierarchical set name, as a value.
pub enum NameComponent {
    Asn(u32),
    Name(Seq<char>),
}

/// The component that the text `t` names, if any.
pub open spec fn spec_component(t: Seq<char>, upper: u8, lower: u8) -> Option<NameComponent> {
    match spec_autnum(t) {
        Some(n) => Some(NameComponent::Asn(n)),
        None => if is_set_name(t, upper, lower) {
            Some(NameComponent::Name(t))
        } else {
            None
        },
    }
}

/// The parts of `t` between colons.
pub open spec fn split_parts(t: Seq<char>) -> Seq<Seq<char>>
    decreases t.len(),
{
    if t.len() == 0 {
        seq![Seq::<char>::empty()]
    } else {
        let init = split_parts(t.drop_last());
        if t.last() as u8 == 58u8 {
            init.push(Seq::<char>::empty())
        } else {
            init.update(init.len() - 1, init.last().push(t.last()))
        }
    }
}

/// The components named by each of `parts`, if every part names one.
pub open spec fn components_of(parts: Seq<Seq<char>>, upper: u8, lower: u8) -> Option<
    Seq<NameComponent>,
>
    decreases parts.len(),
{
    if parts.len() == 0 {
        Some(Seq::<NameComponent>::empty())
    } else {
        match (components_of(parts.drop_last(), upper, lower), spec_component(parts.last(), upper, lower)) {
            (Some(cs), Some(c)) => Some(cs.push(c)),
            _ => None,
        }
    }
}

pub open spec fn has_named(cs: Seq<NameComponent>) -> bool {
    exists|k: int| 0 <= k < cs.len() && #[trigger] cs[k] is Name
}

/// A hierarchical set name: colon-separated components, each an `aut-num`
/// or a set name, at least one of them a set name.
pub open spec fn spec_set(t: Seq<char>, upper: u8, lower: u8) -> Option<Seq<NameComponent>> {
    if !is_ascii_chars(t) {
        None
    } else {
        match components_of(split_parts(t), upper, lower) {
            Some(cs) => if has_named(cs) {
                Some(cs)
            } else {
                None
            },
            None => None,
        }
    }
}

/// The text of an `aut-num`: `AS` and the number in decimal.
pub open spec fn autnum_text(n: u32) -> Seq<char> {
    seq!['A', 'S'] + decimal(n as nat)
}

pub open spec fn component_text(c: NameComponent) -> Seq<char> {
    match c {
        NameComponent::Asn(n) => autnum_text(n),
        NameComponent::Name(t) => t,
    }
}

/// The text of a hierarchical set name: its components joined by colons.
pub open spec fn set_text(cs: Seq<NameComponent>) -> Seq<char>
    decreases cs.len(),
{
    if cs.len() == 0 {
        Seq::<char>::empty()
    } else if cs.len() == 1 {
        component_text(cs[0])
    } else {
        set_text(cs.drop_last()) + seq![':'] + component_text(cs.last())
    }
}

/// RPSL `aut-num` name: an autonomous system number.
#[derive(Clone, Copy, Debug, Hash, PartialEq, Eq, Structural)]
pub struct AutNum(pub u32);

impl AutNum {
    pub open spec fn value(&self) -> u32 {
        self.0
    }

    /// The ASN as a `u32`.
    pub fn asn(&self) -> (r: u32)
        ensures
            r == self.value(),
    {
        self.0
    }

    /// Parses `AS<number>`, with `AS` in any case.
    pub fn parse_text(s: &str) -> (r: Option<AutNum>)
        ensures
            match r {
                Some(a) => spec_autnum(s@) == Some(a.value()),
                None => spec_autnum(s@) is None,
            },
    {
        if !s.is_ascii() {
            return None;
        }
        let b = s.as_bytes();
        proof {
            ascii_bytes(s);
        }
        match scan_autnum(Ghost(s@), b, 0, b.len()) {
            Some(n) => {
                assert(s@.subrange(0, s@.len() as int) =~= s@);
                Some(AutNum(n))
            },
            None => {
                assert(s@.subrange(0, s@.len() as int) =~= s@);
                None
            },
        }
    }

    /// The canonical text `AS<number>`.
    pub fn to_text(&self) -> (r: String)
        ensures
            r@ == autnum_text(self.value()),
    {
        let mut out = String::from_str("AS");
        proof {
            reveal_strlit("AS");
        }
        push_decimal(&mut out, self.0 as u64);
        assert(out@ =~= autnum_text(self.value()));
        out
    }
}

impl From<u32> for AutNum {
    fn from(asn: u32) -> (r: AutNum) {
        AutNum(asn)
    }
}

impl vstd::std_specs::convert::FromSpecImpl<u32> for AutNum {
    open spec fn obeys_from_spec() -> bool {
        true
    }

    open spec fn from_spec(v: u32) -> AutNum {
        AutNum::spec_new(v)
    }
}

impl AutNum {
    pub open spec fn spec_new(v: u32) -> AutNum {
        AutNum(v)
    }
}

/// The bytes of an ASCII string are its characters, one for one.
proof fn ascii_bytes(s: &str)
    requires
        is_ascii_chars(s@),
    ensures
        ascii_of(s@, s.spec_bytes()),
{
    vstd::utf8::is_ascii_chars_encode_utf8(s@);
    assert(s.spec_bytes() =~= codes(s@));
}

/// The bytes `b` are the codes of the ASCII characters `t`.
pub open spec fn ascii_of(t: Seq<char>, b: Seq<u8>) -> bool {
    is_ascii_chars(t) && b == codes(t)
}

/// The codes of a part of an ASCII text are the same part of its codes.
proof fn lemma_codes_subrange(t: Seq<char>, b: Seq<u8>, start: int, end: int)
    requires
        ascii_of(t, b),
        0 <= start <= end <= t.len(),
    ensures
        ascii_of(t.subrange(start, end), b.subrange(start, end)),
{
    assert(codes(t.subrange(start, end)) =~= b.subrange(start, end));
}

/// Scans `b[start..end]` as an `aut-num`.
fn scan_autnum(Ghost(t): Ghost<Seq<char>>, b: &[u8], start: usize, end: usize) -> (r: Option<u32>)
    requires
        ascii_of(t, b@),
        start <= end <= b@.len(),
    ensures
        r == spec_autnum(t.subrange(start as int, end as int)),
{
    let ghost c = b@.subrange(start as int, end as int);
    proof {
        lemma_codes_subrange(t, b@, start as int, end as int);
    }
    if end - start < 3 || !(b[start] == 65u8 || b[start] == 97u8) || !(b[start + 1] == 83u8 || b[
        start + 1] == 115u8) {
        return None;
    }
    let ghost digits = c.skip(2);
    let mut i: usize = start + 2;
    let mut value: u64 = 0;
    let mut overflow = false;
    while i < end
        invariant
            start + 2 <= i <= end <= b@.len(),
            c == b@.subrange(start as int, end as int),
            ascii_of(t.subrange(start as int, end as int), c),
            digits == c.skip(2),
            forall|j: int| 2 <= j < i - start ==> 48 <= #[trigger] c[j] && c[j] <= 57,
            !overflow ==> value == decimal_value(digits.take(i - start - 2)),
            !overflow ==> value <= u32::MAX,
            overflow ==> decimal_value(digits.take(i - start - 2)) > u32::MAX,
        decreases end - i,
    {
        if !(48u8 <= b[i] && b[i] <= 57u8) {
            assert(!(48 <= c[i - start] && c[i - start] <= 57));
            return None;
        }
        let ghost prev = digits.take(i - start - 2);
        let ghost next = digits.take(i - start - 1);
        assert(next.drop_last() =~= prev);
        assert(next.last() == b@[i as int]);
        let d = (b[i] - 48u8) as u64;
        if !overflow {
            value = value * 10 + d;
            if value > 4294967295u64 {
                overflow = true;
            }
        } else {
            assert(decimal_value(next) >= decimal_value(prev)) by (nonlinear_arith)
                requires
                    decimal_value(next) == decimal_value(prev) * 10 + (next.last() - 48) as nat,
            ;
        }
        i += 1;
    }
    assert(digits.take(end - start - 2) =~= digits);
    if overflow {
        None
    } else {
        Some(value as u32)
    }
}

/// Whether `b[start..end]` is a set name with the given first letter.
fn scan_set_name(
    Ghost(t): Ghost<Seq<char>>,
    b: &[u8],
    start: usize,
    end: usize,
    upper: u8,
    lower: u8,
) -> (r: bool)
    requires
        ascii_of(t, b@),
        start <= end <= b@.len(),
    ensures
        r == is_set_name(t.subrange(start as int, end as int), upper, lower),
{
    let ghost c = b@.subrange(start as int, end as int);
    proof {
        lemma_codes_subrange(t, b@, start as int, end as int);
    }
    if end - start < 4 || !(b[start] == upper || b[start] == lower) || !(b[start + 1] == 83u8 || b[
        start + 1] == 115u8) || b[start + 2] != 45u8 {
        return false;
    }
    let mut i: usize = start + 3;
    while i < end
        invariant
            start + 3 <= i <= end <= b@.len(),
            c == b@.subrange(start as int, end as int),
            ascii_of(t.subrange(start as int, end as int), c),
            forall|j: int| 3 <= j < i - start ==> is_name_byte(#[trigger] c[j]),
        decreases end - i,
    {
        let x = b[i];
        if !((97u8 <= x && x <= 122u8) || (65u8 <= x && x <= 90u8) || (48u8 <= x && x <= 57u8) || x
            == 45u8 || x == 95u8) {
            assert(!is_name_byte(c[i - start]));
            return false;
        }
        i += 1;
    }
    true
}

/// One component of a hierarchical set name.
#[derive(Clone, Debug, Hash, PartialEq, Eq)]
pub enum SetComponent {
    /// An `aut-num`.
    AutNum(AutNum),
    /// A set name, as written.
    Named(String),
}

impl View for SetComponent {
    type V = NameComponent;

    open spec fn view(&self) -> NameComponent {
        match self {
            SetComponent::AutNum(a) => NameComponent::Asn(a.value()),
            SetComponent::Named(n) => NameComponent::Name(n@),
        }
    }
}

pub open spec fn component_views(v: Seq<SetComponent>) -> Seq<NameComponent> {
    v.map_values(|c: SetComponent| c@)
}

proof fn lemma_has_named_push(cs: Seq<NameComponent>, x: NameComponent)
    ensures
        has_named(cs.push(x)) == (has_named(cs) || x is Name),
{
    let ys = cs.push(x);
    if x is Name {
        assert(ys[cs.len() as int] is Name);
    }
    if has_named(cs) {
        let k = choose|k: int| 0 <= k < cs.len() && #[trigger] cs[k] is Name;
        assert(ys[k] is Name);
    }
    if has_named(ys) {
        let k = choose|k: int| 0 <= k < ys.len() && #[trigger] ys[k] is Name;
        if k < cs.len() {
            assert(cs[k] is Name);
        }
    }
}

/// Scans `s[start..end]` as one component of a set name.
fn scan_component(s: &str, b: &[u8], start: usize, end: usize, upper: u8, lower: u8) -> (r: Option<
    SetComponent,
>)
    requires
        ascii_of(s@, b@),
        start <= end <= b@.len(),
    ensures
        match r {
            Some(c) => spec_component(s@.subrange(start as int, end as int), upper, lower) == Some(
                c@,
            ),
            None => spec_component(s@.subrange(start as int, end as int), upper, lower) is None,
        },
{
    match scan_autnum(Ghost(s@), b, start, end) {
        Some(n) => Some(SetComponent::AutNum(AutNum(n))),
        None => if scan_set_name(Ghost(s@), b, start, end, upper, lower) {
            Some(SetComponent::Named(s.substring_ascii(start, end).to_owned()))
        } else {
            None
        },
    }
}

/// Scans `s` as a hierarchical set name whose named components begin with
/// `upper`/`lower`.
fn scan_set(s: &str, upper: u8, lower: u8) -> (r: Option<Vec<SetComponent>>)
    ensures
        match r {
            Some(v) => spec_set(s@, upper, lower) == Some(component_views(v@)),
            None => spec_set(s@, upper, lower) is None,
        },
{
    if !s.is_ascii() {
        return None;
    }
    let b = s.as_bytes();
    proof {
        ascii_bytes(s);
    }
    let len = b.len();
    let mut comps: Vec<SetComponent> = Vec::new();
    let mut ok = true;
    let mut named = false;
    let mut start: usize = 0;
    let mut i: usize = 0;
    let ghost mut done: Seq<Seq<char>> = Seq::empty();
    let ghost mut cs: Seq<NameComponent> = Seq::empty();
    assert(s@.take(0) =~= Seq::<char>::empty());
    assert(s@.subrange(0, 0) =~= Seq::<char>::empty());
    assert(split_parts(s@.take(0)) =~= done.push(s@.subrange(0, 0)));
    while i < len
        invariant
            ascii_of(s@, b@),
            len == b@.len(),
            start <= i <= len,
            split_parts(s@.take(i as int)) == done.push(s@.subrange(start as int, i as int)),
            ok ==> components_of(done, upper, lower) == Some(cs),
            !ok ==> components_of(done, upper, lower) is None,
            ok ==> component_views(comps@) == cs,
            ok ==> named == has_named(cs),
        decreases len - i,
    {
        let ghost cur = s@.subrange(start as int, i as int);
        let ghost t1 = s@.take(i + 1);
        assert(t1.drop_last() =~= s@.take(i as int));
        assert(t1.last() as u8 == b@[i as int]);
        if b[i] == 58u8 {
            let part = scan_component(s, b, start, i, upper, lower);
            match part {
                Some(c) => {
                    if ok {
                        proof {
                            lemma_has_named_push(cs, c@);
                            assert(component_views(comps@.push(c)) =~= component_views(comps@).push(c@));
                            cs = cs.push(c@);
                        }
                        if let SetComponent::Named(_) = &c {
                            named = true;
                        }
                        comps.push(c);
                    }
                },
                None => {
                    ok = false;
                },
            }
            proof {
                assert(done.push(cur).drop_last() =~= done);
                done = done.push(cur);
                assert(s@.subrange(i + 1, i + 1) =~= Seq::<char>::empty());
                assert(split_parts(t1) =~= done.push(s@.subrange(i + 1, i + 1)));
            }
            start = i + 1;
        } else {
            proof {
                assert(cur.push(t1.last()) =~= s@.subrange(start as int, i + 1));
                assert(done.push(cur).update(done.len() as int, cur.push(t1.last())) =~= done.push(
                    s@.subrange(start as int, i + 1),
                ));
                assert(split_parts(t1) =~= done.push(s@.subrange(start as int, i + 1)));
            }
        }
        i += 1;
    }
    let part = scan_component(s, b, start, len, upper, lower);
    let ghost cur = s@.subrange(start as int, len as int);
    assert(s@.take(len as int) =~= s@);
    assert(done.push(cur).drop_last() =~= done);
    match part {
        Some(c) => {
            if !ok {
                return None;
            }
            proof {
                lemma_has_named_push(cs, c@);
                assert(component_views(comps@.push(c)) =~= component_views(comps@).push(c@));
            }
            if let SetComponent::Named(_) = &c {
                named = true;
            }
            comps.push(c);
            if named {
                Some(comps)
            } else {
                None
            }
        },
        None => None,
    }
}

/// A copy of the components, component by component.
fn copy_components(v: &Vec<SetComponent>) -> (r: Vec<SetComponent>)
    ensures
        component_views(r@) == component_views(v@),
{
    let mut out: Vec<SetComponent> = Vec::new();
    let mut k: usize = 0;
    while k < v.len()
        invariant
            k <= v@.len(),
            component_views(out@) =~= component_views(v@).take(k as int),
        decreases v@.len() - k,
    {
        let c = match &v[k] {
            SetComponent::AutNum(a) => SetComponent::AutNum(*a),
            SetComponent::Named(n) => SetComponent::Named(n.clone()),
        };
        assert(component_views(out@.push(c)) =~= component_views(out@).push(c@));
        out.push(c);
        k += 1;
    }
    assert(component_views(v@).take(v@.len() as int) =~= component_views(v@));
    out
}

/// Writes the components joined by colons.
fn render_set(v: &Vec<SetComponent>) -> (r: String)
    ensures
        r@ == set_text(component_views(v@)),
{
    let ghost cs = component_views(v@);
    let mut out = String::new();
    let mut k: usize = 0;
    proof {
        reveal_strlit(":");
    }
    assert(cs.take(0) =~= Seq::<NameComponent>::empty());
    while k < v.len()
        invariant
            cs == component_views(v@),
            k <= v@.len(),
            out@ == set_text(cs.take(k as int)),
        decreases v@.len() - k,
    {
        let ghost next = cs.take(k + 1);
        assert(next.drop_last() =~= cs.take(k as int));
        assert(next.last() == v@[k as int]@);
        proof {
            reveal_strlit(":");
        }
        if k > 0 {
            out.append(":");
        }
        match &v[k] {
            SetComponent::AutNum(a) => {
                let t = a.to_text();
                out.append(t.as_str());
            },
            SetComponent::Named(n) => {
                out.append(n.as_str());
            },
        }
        assert(out@ =~= set_text(next));
        k += 1;
    }
    assert(cs.take(v@.len() as int) =~= cs);
    out
}

/// RPSL `as-set` name: colon-separated `aut-num`s and `AS-` names, at least
/// one of them a name.
#[derive(Clone, Debug, Hash, PartialEq, Eq)]
pub struct AsSet(Vec<SetComponent>);

impl View for AsSet {
    type V = Seq<NameComponent>;

    closed spec fn view(&self) -> Seq<NameComponent> {
        component_views(self.0@)
    }
}

impl AsSet {
    /// Parses an `as-set` name.
    pub fn parse_text(s: &str) -> (r: Option<AsSet>)
        ensures
            match r {
                Some(v) => spec_set(s@, 65, 97) == Some(v@),
                None => spec_set(s@, 65, 97) is None,
            },
    {
        match scan_set(s, 65u8, 97u8) {
            Some(v) => Some(AsSet(v)),
            None => None,
        }
    }

    /// The components, in order.
    pub fn components(&self) -> (r: &Vec<SetComponent>)
        ensures
            component_views(r@) == self@,
    {
        &self.0
    }

    /// The canonical text: the components joined by colons.
    pub fn to_text(&self) -> (r: String)
        ensures
            r@ == set_text(self@),
    {
        render_set(&self.0)
    }

    /// A copy with the same components.
    pub fn duplicate(&self) -> (r: AsSet)
        ensures
            r@ == self@,
    {
        AsSet(copy_components(&self.0))
    }
}

/// RPSL `route-set` name: colon-separated `aut-num`s and `RS-` names, at
/// least one of them a name.
#[derive(Clone, Debug, Hash, PartialEq, Eq)]
pub struct RouteSet(Vec<SetComponent>);

impl View for RouteSet {
    type V = Seq<NameComponent>;

    closed spec fn view(&self) -> Seq<NameComponent> {
        component_views(self.0@)
    }
}

impl RouteSet {
    /// Parses a `route-set` name.
    pub fn parse_text(s: &str) -> (r: Option<RouteSet>)
        ensures
            match r {
                Some(v) => spec_set(s@, 82, 114) == Some(v@),
                None => spec_set(s@, 82, 114) is None,
            },
    {
        match scan_set(s, 82u8, 114u8) {
            Some(v) => Some(RouteSet(v)),
            None => None,
        }
    }

    /// The components, in order.
    pub fn components(&self) -> (r: &Vec<SetComponent>)
        ensures
            component_views(r@) == self@,
    {
        &self.0
    }

    /// The canonical text: the components joined by colons.
    pub fn to_text(&self) -> (r: String)
        ensures
            r@ == set_text(self@),
    {
        render_set(&self.0)
    }

    /// A copy with the same components.
    pub fn duplicate(&self) -> (r: RouteSet)
        ensures
            r@ == self@,
    {
        RouteSet(copy_components(&self.0))
    }
}

/// A maintainer name: one or more name characters.
pub open spec fn spec_mntner(t: Seq<char>) -> bool {
    is_ascii_chars(t) && t.len() > 0 && forall|i: int|
        0 <= i < t.len() ==> is_name_byte(#[trigger] codes(t)[i])
}

/// RPSL `mntner` name.
#[derive(Clone, Debug, Hash, PartialEq, Eq)]
pub struct Mntner(String);

impl View for Mntner {
    type V = Seq<char>;

    closed spec fn view(&self) -> Seq<char> {
        self.0@
    }
}

impl Mntner {
    /// Parses a maintainer name.
    pub fn parse_text(s: &str) -> (r: Option<Mntner>)
        ensures
            match r {
                Some(m) => spec_mntner(s@) && m@ == s@,
                None => !spec_mntner(s@),
            },
    {
        if !s.is_ascii() {
            return None;
        }
        let b = s.as_bytes();
        proof {
            ascii_bytes(s);
        }
        if b.len() == 0 {
            return None;
        }
        let mut i: usize = 0;
        while i < b.len()
            invariant
                ascii_of(s@, b@),
                i <= b@.len(),
                forall|j: int| 0 <= j < i ==> is_name_byte(#[trigger] b@[j]),
            decreases b@.len() - i,
        {
            let x = b[i];
            if !((97u8 <= x && x <= 122u8) || (65u8 <= x && x <= 90u8) || (48u8 <= x && x <= 57u8)
                || x == 45u8 || x == 95u8) {
                assert(!is_name_byte(codes(s@)[i as int]));
                return None;
            }
            i += 1;
        }
        Some(Mntner(s.to_owned()))
    }

    /// The name, as written.
    pub fn to_text(&self) -> (r: String)
        ensures
            r@ == self@,
    {
        self.0.clone()
    }

    /// A copy with the same name.
    pub fn duplicate(&self) -> (r: Mntner)
        ensures
            r@ == self@,
    {
        Mntner(self.0.clone())
    }
}

/// The members that an `as-set` may list.
#[derive(Clone, Debug, Hash, PartialEq, Eq)]
pub enum AsSetMember {
    /// The name of an `aut-num`.
    AutNum(AutNum),
    /// The name of an `as-set`.
    AsSet(AsSet),
}

/// The members that a `route-set` may list.
#[derive(Clone, Debug, Hash, PartialEq, Eq)]
pub enum RouteSetMember {
    /// An IPv4 prefix with optional range operator.
    Route(String, Option<RangeOperator>),
    /// The name of a `route-set` with optional range operator.
    RouteSet(RouteSet, Option<RangeOperator>),
    /// The name of an `aut-num` with optional range operator.
    AutNum(AutNum, Option<RangeOperator>),
    /// The name of an `as-set` with optional range operator.
    AsSet(AsSet, Option<RangeOperator>),
}

/// Operators applied to names in a `route-set` context.
#[derive(Clone, Copy, Debug, Hash, PartialEq, Eq)]
pub enum RangeOperator {
    /// Exclusive more-specifics (`^-`).
    MoreExclusive,
    /// Inclusive more-specifics (`^+`).
    MoreInclusive,
    /// More-specifics of length `n` (`^n`).
    SubprefixExact(u8),
    /// More-specifics of lengths `m` to `n` (`^m-n`).
    SubprefixRange(u8, u8),
}

/// The error of parsing a text that is not a valid name.
#[derive(Clone, Copy, Debug, PartialEq, Eq)]
pub struct ParseNameError;

impl std::str::FromStr for AutNum {
    type Err = ParseNameError;

    fn from_str(s: &str) -> Result<AutNum, ParseNameError> {
        match AutNum::parse_text(s) {
            Some(v) => Ok(v),
            None => Err(ParseNameError),
        }
    }
}

impl std::str::FromStr for AsSet {
    type Err = ParseNameError;

    fn from_str(s: &str) -> Result<AsSet, ParseNameError> {
        match AsSet::parse_text(s) {
            Some(v) => Ok(v),
            None => Err(ParseNameError),
        }
    }
}

impl std::str::FromStr for RouteSet {
    type Err = ParseNameError;

    fn from_str(s: &str) -> Result<RouteSet, ParseNameError> {
        match RouteSet::parse_text(s) {
            Some(v) => Ok(v),
            None => Err(ParseNameError),
        }
    }
}

impl std::str::FromStr for Mntner {
    type Err = ParseNameError;

    fn from_str(s: &str) -> Result<Mntner, ParseNameError> {
        match Mntner::parse_text(s) {
            Some(v) => Ok(v),
            None => Err(ParseNameError),
        }
    }
}

} // verus!
