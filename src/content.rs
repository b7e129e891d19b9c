//! Types that response items can be read into.

use vstd::prelude::*;
use vstd::string::StringExecFns;

use crate::types::{spec_autnum, spec_mntner, spec_set, AsSet, AutNum, Mntner, RouteSet};

verus! {

/// A type whose values are read from the text of a response item.
pub trait ItemContent: Sized {
    /// Whether the text `s` denotes a value.
    spec fn accepts(s: Seq<char>) -> bool;

    /// Whether `v` is the value that the text `s` denotes.
    spec fn denotes(s: Seq<char>, v: Self) -> bool;

    /// Reads a value from the text of an item.
    fn from_text(s: &str) -> (r: Option<Self>)
        ensures
            r is Some <==> Self::accepts(s@),
            r matches Some(v) ==> Self::denotes(s@, v),
    ;
}

impl ItemContent for String {
    open spec fn accepts(s: Seq<char>) -> bool {
        true
    }

    open spec fn denotes(s: Seq<char>, v: String) -> bool {
        v@ == s
    }

    fn from_text(s: &str) -> (r: Option<String>) {
        Some(String::from_str(s))
    }
}

impl ItemContent for AutNum {
    open spec fn accepts(s: Seq<char>) -> bool {
        spec_autnum(s) is Some
    }

    open spec fn denotes(s: Seq<char>, v: AutNum) -> bool {
        spec_autnum(s) == Some(v.value())
    }

    fn from_text(s: &str) -> (r: Option<AutNum>) {
        AutNum::parse_text(s)
    }
}

impl ItemContent for AsSet {
    open spec fn accepts(s: Seq<char>) -> bool {
        spec_set(s, 65, 97) is Some
    }

    open spec fn denotes(s: Seq<char>, v: AsSet) -> bool {
        spec_set(s, 65, 97) == Some(v@)
    }

    fn from_text(s: &str) -> (r: Option<AsSet>) {
        AsSet::parse_text(s)
    }
}

impl ItemContent for RouteSet {
    open spec fn accepts(s: Seq<char>) -> bool {
        spec_set(s, 82, 114) is Some
    }

    open spec fn denotes(s: Seq<char>, v: RouteSet) -> bool {
        spec_set(s, 82, 114) == Some(v@)
    }

    fn from_text(s: &str) -> (r: Option<RouteSet>) {
        RouteSet::parse_text(s)
    }
}

impl ItemContent for Mntner {
    open spec fn accepts(s: Seq<char>) -> bool {
        spec_mntner(s)
    }

    open spec fn denotes(s: Seq<char>, v: Mntner) -> bool {
        v@ == s
    }

    fn from_text(s: &str) -> (r: Option<Mntner>) {
        Mntner::parse_text(s)
    }
}

} // verus!
