//! The parser as a mathematical state, and what each step of matching does
//! to it.

use vstd::prelude::*;
use vstd::set_lib::set_int_range;
use crate::errors::ErrorView;
use crate::found::{Found, Place};
use crate::printer::Schema;

verus! {

/// What the match engine answers: a match, none, or a failure.
pub type Matched = Result<Option<Found>, ErrorView>;

/// The token that ends structural matching.
pub open spec fn dashes() -> Seq<char> {
    seq!['-', '-']
}

/// `s` is the position of the first token that reads `--`.
pub open spec fn is_first_stop(tokens: Seq<Seq<char>>, s: int) -> bool {
    &&& 0 <= s < tokens.len()
    &&& tokens[s] == dashes()
    &&& forall|j: int| 0 <= j < s ==> tokens[j] != dashes()
}

/// The position of the first token that reads `--`, if there is one.
pub open spec fn stop_of(tokens: Seq<Seq<char>>) -> Option<int> {
    if exists|s: int| is_first_stop(tokens, s) {
        Some(choose|s: int| is_first_stop(tokens, s))
    } else {
        None
    }
}

/// `t` has the shape of a cluster of short codes: one dash, then at least
/// two characters, the first of them no dash and the second no `=`.
pub open spec fn cluster_shaped(t: Seq<char>) -> bool {
    t.len() > 2 && t[0] == '-' && t[1] != '-' && t[2] != '='
}

/// The code `c` stands inside the cluster `t` before its last character:
/// behind the leading dash, with at least one character following.
pub open spec fn buried(t: Seq<char>, c: char) -> bool {
    exists|k: int| 1 <= k < t.len() - 1 && t[k] == c
}

/// The offsets of `t` that hold `c`.
pub open spec fn hits(t: Seq<char>, c: char) -> Set<int> {
    Set::new(|k: int| 0 <= k < t.len() && t[k] == c)
}

/// The least member of `s`, if it has one.
pub open spec fn lowest(s: Set<int>) -> Option<int> {
    if exists|i: int| is_lowest(s, i) {
        Some(choose|i: int| is_lowest(s, i))
    } else {
        None
    }
}

/// `i` is a member of `s`, and none is below it.
pub open spec fn is_lowest(s: Set<int>, i: int) -> bool {
    s.contains(i) && forall|j: int| s.contains(j) ==> i <= j
}

/// The members of `s` below `below`, in ascending order.
pub open spec fn ascending(s: Set<int>, below: int) -> Seq<int>
    decreases below,
{
    if below <= 0 {
        Seq::empty()
    } else if s.contains(below - 1) {
        ascending(s, below - 1).push(below - 1)
    } else {
        ascending(s, below - 1)
    }
}

/// The state of a parse.
pub struct State {
    /// The input, token 0 being the program's name.
    pub tokens: Seq<Seq<char>>,
    /// The position of the token `--`, if there is one.
    pub stop: Option<int>,
    /// The consumption mask: the positions no declaration has claimed.
    pub unclaimed: Set<int>,
    /// For each token taken as a cluster of short codes, the offsets in it
    /// that are still open.
    pub runs: Map<int, Set<int>>,
    /// The nesting of the declaration being read.
    pub walk_depth: nat,
    /// The nesting down to which subcommands were found in the input.
    pub commit_depth: nat,
    /// The deepest `commit_depth` ever reached.
    pub max_depth: nat,
    /// Once set, every declaration is inert.
    pub parse_done: bool,
    /// The group that is open, if one is.
    pub group: Option<Seq<char>>,
    /// Whether help was asked for: declarations then register themselves in
    /// the schema and bind nothing.
    pub help: bool,
    /// Whether the variadic positional has been declared.
    pub variadic: bool,
    /// The first failure, which every later declaration returns.
    pub failure: Option<ErrorView>,
    /// What was registered for the help.
    pub schema: Schema,
}

impl State {
    /// The end of the positions that are open to matching.
    pub open spec fn limit(self) -> int {
        match self.stop {
            Some(s) => s,
            None => self.tokens.len() as int,
        }
    }

    /// The state is one that a parse can reach.
    ///
    /// The stop is the first token `--`. What is unclaimed lies behind the
    /// program's name and before the stop. Every cluster state is in order.
    /// The deepest nesting committed to is the current one, since no
    /// commitment is taken back; and once the declarations have come up
    /// from below it, the parse is done. While help is wanted, the open
    /// group is registered, unless it was opened in a scope that is not
    /// read, and then nothing is read before it is closed.
    pub open spec fn wf(self) -> bool {
        &&& match self.stop {
            Some(s) => is_first_stop(self.tokens, s),
            None => forall|j: int| 0 <= j < self.tokens.len() ==> self.tokens[j] != dashes(),
        }
        &&& self.unclaimed.finite()
        &&& forall|i: int| self.unclaimed.contains(i) ==> 1 <= i < self.limit()
        &&& self.runs.dom().finite()
        &&& forall|i: int| #[trigger] self.runs.contains_key(i) ==> self.run_ok(i)
        &&& self.commit_depth == self.max_depth
        &&& self.walk_depth < self.commit_depth ==> self.parse_done
        &&& (self.help && self.group is Some ==> self.schema.has_group(self.group->0)
            || self.parse_done || self.walk_depth > self.commit_depth)
        &&& self.schema.wf()
    }

    /// The cluster state of token `i` is in order: the token can be matched
    /// and has the shape of a cluster, its open offsets lie behind the
    /// leading dash, and as long as the token is unclaimed one of them is
    /// open.
    pub open spec fn run_ok(self, i: int) -> bool {
        &&& 1 <= i < self.limit()
        &&& cluster_shaped(self.tokens[i])
        &&& self.runs[i].subset_of(set_int_range(1, self.tokens[i].len() as int))
        &&& self.unclaimed.contains(i) ==> exists|k: int| self.runs[i].contains(k)
    }

    /// The offsets of token `i` that no short code has claimed: those its
    /// cluster state holds, or all behind the leading dash where it has none.
    pub open spec fn open_offsets(self, i: int) -> Set<int> {
        if self.runs.contains_key(i) {
            self.runs[i]
        } else {
            set_int_range(1, self.tokens[i].len() as int)
        }
    }

    /// The state with the token of the match `m` claimed, unless the match
    /// lies in a cluster: a cluster is claimed character by character and
    /// leaves the mask only with its last open character.
    pub open spec fn claim_match(self, m: Found) -> State {
        if m.run_count == 0 {
            self.claim(m.index)
        } else {
            self
        }
    }

    /// The state with token `i` claimed.
    pub open spec fn claim(self, i: int) -> State {
        State { unclaimed: self.unclaimed.remove(i), ..self }
    }

    /// The state with `e` as the failure of the parse.
    pub open spec fn fail(self, e: ErrorView) -> State {
        State { failure: Some(e), ..self }
    }

    /// Looks for the short code `c` in token `i` taken as a cluster. Every
    /// open offset that holds `c` is claimed at once, and from then on the
    /// token has a cluster state. The token leaves the mask when its last
    /// offset is claimed. A code that expects a value may stand in the
    /// cluster only as its last character: where it stands anywhere before
    /// that, the lookup fails. Where no open offset holds the code, the
    /// lookup answers nothing. A lookup that claims nothing changes nothing.
    pub open spec fn run_lookup(self, i: int, c: char, expect_value: bool) -> (State, Matched) {
        let t = self.tokens[i];
        let open = self.open_offsets(i);
        let claimed = open.intersect(hits(t, c));
        let rest = open.difference(hits(t, c));
        if expect_value && buried(t, c) {
            (self, Err(ErrorView::ValuedArgInRun(c, t)))
        } else if claimed.len() == 0 {
            (self, Ok(None))
        } else {
            (
                State {
                    runs: self.runs.insert(i, rest),
                    unclaimed: if rest.len() == 0 {
                        self.unclaimed.remove(i)
                    } else {
                        self.unclaimed
                    },
                    ..self
                },
                Ok(
                    Some(
                        Found {
                            index: i,
                            run_count: claimed.len(),
                            place: if expect_value {
                                Place::Next
                            } else {
                                Place::Absent
                            },
                        },
                    ),
                ),
            )
        }
    }

    /// Where the value of an option is that fills token `i` exactly.
    pub open spec fn exact_place(self, i: int, expect_value: bool) -> Place {
        if expect_value && self.unclaimed.contains(i + 1) {
            Place::Next
        } else {
            Place::Absent
        }
    }

    /// The short-form test of token `i` against the code `c`.
    pub open spec fn short_test(self, i: int, c: char, expect_value: bool) -> (State, Matched) {
        let t = self.tokens[i];
        if c == '\0' || t.len() < 2 {
            (self, Ok(None))
        } else if self.runs.contains_key(i) {
            self.run_lookup(i, c, expect_value)
        } else if t[0] != '-' || t[1] == '-' {
            (self, Ok(None))
        } else if t[1] != c {
            if t.len() > 2 && t[2] != '=' {
                self.run_lookup(i, c, expect_value)
            } else {
                (self, Ok(None))
            }
        } else if t.len() == 2 {
            (
                self,
                Ok(Some(Found { index: i, run_count: 0, place: self.exact_place(i, expect_value) })),
            )
        } else if t[2] == '=' {
            (self, Ok(Some(Found { index: i, run_count: 0, place: Place::Equals(2) })))
        } else {
            self.run_lookup(i, c, expect_value)
        }
    }

    /// The long-form test of token `i` against `name`.
    pub open spec fn long_test(self, i: int, name: Seq<char>, expect_value: bool) -> Option<Found> {
        let t = self.tokens[i];
        let end = 2 + name.len();
        if name.len() == 0 || t.len() < end || t.subrange(0, 2) != dashes() || t.subrange(
            2,
            end as int,
        ) != name {
            None
        } else if t.len() == end {
            Some(Found { index: i, run_count: 0, place: self.exact_place(i, expect_value) })
        } else if t[end as int] == '=' {
            Some(Found { index: i, run_count: 0, place: Place::Equals(end as int) })
        } else {
            None
        }
    }

    /// Tests the unclaimed tokens from `from` on in ascending order, each in
    /// its short form and then in its long form, and stops at the first
    /// match or failure.
    pub open spec fn scan(self, c: char, name: Seq<char>, expect_value: bool, from: int) -> (
        State,
        Matched,
    )
        decreases self.tokens.len() - from,
    {
        if from < 0 || from >= self.tokens.len() {
            (self, Ok(None))
        } else if !self.unclaimed.contains(from) {
            self.scan(c, name, expect_value, from + 1)
        } else {
            let (s1, r) = self.short_test(from, c, expect_value);
            if r != Ok::<Option<Found>, ErrorView>(None) {
                (s1, r)
            } else {
                match s1.long_test(from, name, expect_value) {
                    Some(m) => (s1, Ok(Some(m))),
                    None => s1.scan(c, name, expect_value, from + 1),
                }
            }
        }
    }

    /// The first structural match of an option among the unclaimed tokens.
    pub open spec fn find_match(self, c: char, name: Seq<char>, expect_value: bool) -> (
        State,
        Matched,
    ) {
        self.scan(c, name, expect_value, 0)
    }

    /// The unclaimed tokens that read `name`.
    pub open spec fn reading(self, name: Seq<char>) -> Set<int> {
        Set::new(|i: int| self.unclaimed.contains(i) && self.tokens[i] == name)
    }

    /// The first unclaimed token that reads `name`.
    pub open spec fn find_subcommand(self, name: Seq<char>) -> Option<int> {
        lowest(self.reading(name))
    }

    /// Whether a declaration at the current nesting is read at all: a
    /// subcommand only directly below the committed path, anything else
    /// only in the deepest scope committed to.
    pub open spec fn live(self, subcommand: bool) -> bool {
        &&& !self.parse_done
        &&& if subcommand {
            self.walk_depth == self.commit_depth + 1
        } else {
            self.walk_depth == self.max_depth
        }
    }

    /// What token `i` still offers: one for the token itself and one for
    /// each of its open offsets.
    pub open spec fn weight(self, i: int) -> nat {
        if self.unclaimed.contains(i) {
            self.open_offsets(i).len() + 1
        } else {
            0
        }
    }

    /// What the tokens below `k` still offer.
    pub open spec fn potential_below(self, k: int) -> nat
        decreases k,
    {
        if k <= 0 {
            0
        } else {
            self.potential_below(k - 1) + self.weight(k - 1)
        }
    }

    /// What the input still offers; every match lowers it.
    pub open spec fn potential(self) -> nat {
        self.potential_below(self.tokens.len() as int)
    }

    /// `next` can follow `self` in a parse: the input is the same, nothing
    /// claimed is offered again, and what is final stays.
    pub open spec fn precedes(self, next: State) -> bool {
        &&& next.tokens == self.tokens
        &&& next.stop == self.stop
        &&& next.help == self.help
        &&& next.unclaimed.subset_of(self.unclaimed)
        &&& forall|i: int| self.runs.contains_key(i) ==> next.runs.contains_key(i)
        &&& forall|i: int|
            0 <= i < self.tokens.len() ==> (#[trigger] next.open_offsets(i)).subset_of(
                self.open_offsets(i),
            )
        &&& (self.parse_done ==> next.parse_done)
        &&& self.max_depth <= next.max_depth
        &&& (self.variadic ==> next.variadic)
        &&& (self.failure is Some ==> next.failure == self.failure)
    }
}

} // verus!
