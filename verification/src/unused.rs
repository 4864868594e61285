//! The report of what no declaration claimed.

use vstd::prelude::*;
use vstd::string::StringExecFns;
use crate::model::{ascending, State};
use crate::text::chars_of;

verus! {

/// What an unclaimed token looks like, going by its first two characters.
#[derive(Debug, Clone, Copy, PartialEq, Eq, Structural)]
pub enum LooksLike {
    ShortArg,
    LongArg,
    Positional,
}

impl LooksLike {
    /// The name of the kind for messages.
    pub fn label(&self) -> (r: &'static str)
        ensures
            r@ == match *self {
                LooksLike::ShortArg => "short-arg"@,
                LooksLike::LongArg => "long-arg"@,
                LooksLike::Positional => "positional"@,
            },
    {
        match self {
            LooksLike::ShortArg => "short-arg",
            LooksLike::LongArg => "long-arg",
            LooksLike::Positional => "positional",
        }
    }
}

/// What `t` looks like: a long option where it starts with two dashes, a
/// short option where it starts with one, else a positional.
pub open spec fn looks(t: Seq<char>) -> LooksLike {
    if t.len() >= 1 && t[0] == '-' {
        if t.len() >= 2 && t[1] == '-' {
            LooksLike::LongArg
        } else {
            LooksLike::ShortArg
        }
    } else {
        LooksLike::Positional
    }
}

/// One entry of the report: a token, or one character of a cluster written
/// as a short option.
#[derive(Debug)]
pub struct Unused {
    pub arg: String,
    pub looks_like: LooksLike,
}

pub struct UnusedView {
    pub arg: Seq<char>,
    pub looks_like: LooksLike,
}

impl View for Unused {
    type V = UnusedView;

    open spec fn view(&self) -> UnusedView {
        UnusedView { arg: self.arg@, looks_like: self.looks_like }
    }
}

impl UnusedView {
    /// The sentence that tells a user of the entry.
    pub open spec fn sentence(self) -> Seq<char> {
        match self.looks_like {
            LooksLike::Positional => "unused positional or arg-value: "@ + self.arg,
            _ => "unused or unknown argument: "@ + self.arg,
        }
    }
}

impl Unused {
    pub fn new(value: String) -> (r: Unused)
        ensures
            r@ == (UnusedView { arg: value@, looks_like: looks(value@) }),
    {
        let t = chars_of(value.as_str());
        let looks_like = if t.len() >= 1 && t[0] == '-' {
            if t.len() >= 2 && t[1] == '-' {
                LooksLike::LongArg
            } else {
                LooksLike::ShortArg
            }
        } else {
            LooksLike::Positional
        };
        Unused { arg: value, looks_like }
    }

    /// The sentence that tells a user of the entry.
    pub fn message(&self) -> (r: String)
        ensures
            r@ == self@.sentence(),
    {
        let mut s = match self.looks_like {
            LooksLike::Positional => "unused positional or arg-value: ".to_owned(),
            _ => "unused or unknown argument: ".to_owned(),
        };
        s.append(self.arg.as_str());
        s
    }
}

/// The open character at offset `k` of the cluster `t`, written as a short
/// option of its own.
pub open spec fn offset_entry(t: Seq<char>, k: int) -> UnusedView {
    UnusedView { arg: seq!['-', t[k]], looks_like: LooksLike::ShortArg }
}

/// The entries that the items of `order` give under `entry`, in that
/// order, each item giving any number of entries.
pub open spec fn gathered(order: Seq<int>, entry: spec_fn(int) -> Seq<UnusedView>) -> Seq<
    UnusedView,
>
    decreases order.len(),
{
    if order.len() == 0 {
        Seq::empty()
    } else {
        gathered(order.drop_last(), entry) + entry(order.last())
    }
}

impl State {
    /// What the report says of token `i`: nothing where it is claimed; one
    /// entry for each open offset, in ascending order, where it was taken
    /// as a cluster; else the token itself.
    pub open spec fn entries(self, i: int) -> Seq<UnusedView> {
        let t = self.tokens[i];
        if !self.unclaimed.contains(i) {
            Seq::empty()
        } else if self.runs.contains_key(i) {
            ascending(self.runs[i], t.len() as int).map_values(|k: int| offset_entry(t, k))
        } else {
            seq![UnusedView { arg: t, looks_like: looks(t) }]
        }
    }

    /// The report of what was not used: the entries of the unclaimed
    /// tokens, in ascending order of the tokens.
    pub open spec fn report(self) -> Seq<UnusedView> {
        gathered(self.unclaimed_order(), |i: int| self.entries(i))
    }
}

} // verus!
