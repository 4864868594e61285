//! What each declaration does to the state of a parse.

use vstd::prelude::*;
use vstd::set_lib::set_int_range;
use crate::errors::ErrorView;
use crate::found::Place;
use crate::lemmas::lemma_match_lowers_potential;
use crate::model::{ascending, lowest, stop_of, State};
use crate::printer::{option_name, AppView, ArgumentView, Schema, SubcommandView};

verus! {

/// How a declaration is read.
pub enum Mode {
    /// An earlier declaration failed: this one returns that failure.
    Blocked,
    /// The declaration lies outside the scope that is read: nothing happens.
    Inert,
    /// Help was asked for: the declaration is registered in the schema.
    Schema,
    /// The declaration is matched against the input.
    Bind,
}

/// A state and what the step that led to it returns.
pub type Step<V> = (State, Result<V, ErrorView>);

/// How the help shows the value of a flag.
pub open spec fn flag_text(b: bool) -> Seq<char> {
    if b {
        "true"@
    } else {
        "false"@
    }
}

/// The help flag is evaluated even while help is wanted.
pub open spec fn is_help_flag(c: char, name: Seq<char>) -> bool {
    c == 'h' || name == "help"@
}

impl State {
    /// The state before any declaration: every position but that of the
    /// program's name is unclaimed up to the token `--`, or up to the end
    /// where there is none.
    pub open spec fn initial(tokens: Seq<Seq<char>>) -> State {
        let stop = stop_of(tokens);
        State {
            tokens,
            stop,
            unclaimed: set_int_range(
                1,
                match stop {
                    Some(s) => s,
                    None => tokens.len() as int,
                },
            ),
            runs: Map::empty(),
            walk_depth: 0,
            commit_depth: 0,
            max_depth: 0,
            parse_done: false,
            group: None,
            help: false,
            variadic: false,
            failure: None,
            schema: Schema::empty(
                AppView { name: ""@, short_desc: ""@, long_desc: ""@, version: ""@ },
            ),
        }
    }

    /// The state in which a parser starts: the help flag `-h`, `--help` has
    /// been looked for as any flag is, and help is wanted where it was
    /// found.
    pub open spec fn started(tokens: Seq<Seq<char>>) -> State {
        let (s1, r) = State::initial(tokens).flag(
            'h',
            "help"@,
            "print this help dialog"@,
            false,
            false,
        );
        match r {
            Ok(found) => State { help: found, ..s1 },
            Err(_) => s1,
        }
    }

    pub open spec fn mode(self) -> Mode {
        if self.failure is Some {
            Mode::Blocked
        } else if !self.live(false) {
            Mode::Inert
        } else if self.help {
            Mode::Schema
        } else {
            Mode::Bind
        }
    }

    /// A step as a declaration takes it: not at all after a failure, and
    /// with its own failure kept for the declarations that follow.
    pub open spec fn settle<V>(self, step: Step<V>) -> Step<V> {
        match self.failure {
            Some(e) => (self, Err(e)),
            None => match step.1 {
                Ok(_) => step,
                Err(e) => (step.0.fail(e), Err(e)),
            },
        }
    }

    pub open spec fn with_schema(self, schema: Schema) -> State {
        State { schema, ..self }
    }

    /// The option is registered under the open group, or under the general
    /// options where no group is open.
    pub open spec fn register_arg(self, a: ArgumentView) -> State {
        self.with_schema(self.schema.add_arg(a, self.group).0)
    }

    pub open spec fn flag_core(
        self,
        c: char,
        name: Seq<char>,
        desc: Seq<char>,
        current: bool,
        invert: bool,
    ) -> Step<bool> {
        if !self.live(false) {
            (self, Ok(current))
        } else {
            let s0 = if self.help {
                self.register_arg(
                    ArgumentView {
                        short: c,
                        long: name,
                        desc,
                        label: None,
                        default: Some(flag_text(current)),
                        required: false,
                    },
                )
            } else {
                self
            };
            if self.help && !is_help_flag(c, name) {
                (s0, Ok(current))
            } else {
                let (s1, r) = s0.find_match(c, name, false);
                match r {
                    Err(e) => (s1, Err(e)),
                    Ok(None) => (s1, Ok(current)),
                    Ok(Some(m)) => match m.place {
                        Place::Absent => (s1.claim_match(m), Ok(!invert)),
                        _ => (
                            s1.claim_match(m),
                            Err(ErrorView::InvalidInput(c, name, "flag should not have a value"@)),
                        ),
                    },
                }
            }
        }
    }

    /// A flag. Where it is found, what matched is claimed, its token or in a
    /// cluster its character, and the target becomes `!invert`; where it is
    /// not, the target stays. A flag that carries a value is a failure. The
    /// result is the new value of the target.
    pub open spec fn flag(
        self,
        c: char,
        name: Seq<char>,
        desc: Seq<char>,
        current: bool,
        invert: bool,
    ) -> Step<bool> {
        self.settle(self.flag_core(c, name, desc, current, invert))
    }

    pub open spec fn done_core(self) -> Step<()> {
        if self.group is Some {
            (State { group: None, ..self }, Ok(()))
        } else if self.walk_depth == 0 {
            (self, Err(ErrorView::InvalidState("call to done() at top-level"@)))
        } else {
            (
                State {
                    parse_done: self.parse_done || (self.walk_depth == self.commit_depth
                        && self.commit_depth == self.max_depth),
                    walk_depth: (self.walk_depth - 1) as nat,
                    ..self
                },
                Ok(()),
            )
        }
    }

    /// The end of a scope. An open group is closed. Else the nesting goes
    /// up by one level, and where the level left is the deepest that was
    /// committed to, the parse is done. At the top level, with no group
    /// open, there is nothing to end.
    pub open spec fn done(self) -> Step<()> {
        self.settle(self.done_core())
    }

    pub open spec fn group_core(self, name: Seq<char>, desc: Seq<char>) -> Step<()> {
        if self.group is Some {
            (self, Err(ErrorView::NestedGroup(self.group->0, name)))
        } else {
            (
                State {
                    group: Some(name),
                    schema: if self.live(false) && self.help {
                        self.schema.add_group(name, desc)
                    } else {
                        self.schema
                    },
                    ..self
                },
                Ok(()),
            )
        }
    }

    /// The start of a group, which only orders the help. The group is open
    /// from here to its `done`, in whatever scope it is declared; it is
    /// registered for the help only in the scope that is read. A group
    /// inside a group is a failure.
    pub open spec fn group(self, name: Seq<char>, desc: Seq<char>) -> Step<()> {
        self.settle(self.group_core(name, desc))
    }

    /// What matched is claimed, its token or in a cluster its character,
    /// and the value is located: behind the `=`, or in the next token,
    /// which must still be unclaimed and is claimed too.
    pub open spec fn take_value(self, m: crate::found::Found, c: char, name: Seq<char>) -> Step<
        Seq<char>,
    > {
        let s1 = self.claim_match(m);
        match m.place {
            Place::Absent => (s1, Err(ErrorView::MissingArgValue(c, name))),
            Place::Next => if s1.unclaimed.contains(m.index + 1) {
                (s1.claim(m.index + 1), Ok(self.tokens[m.index + 1]))
            } else {
                (s1, Err(ErrorView::MissingArgValue(c, name)))
            },
            Place::Equals(off) => (s1, Ok(self.tokens[m.index].skip(off + 1))),
        }
    }

    /// An option with one value, matched against the input: the text of
    /// its value where it is found, nothing where it is absent and not
    /// required.
    pub open spec fn arg_bind(self, c: char, name: Seq<char>, required: bool) -> Step<
        Option<Seq<char>>,
    > {
        let (s1, r) = self.find_match(c, name, true);
        match r {
            Err(e) => (s1, Err(e)),
            Ok(None) => if required {
                (s1, Err(ErrorView::MissingArgument(option_name(c, name))))
            } else {
                (s1, Ok(None))
            },
            Ok(Some(m)) => {
                let (s2, v) = s1.take_value(m, c, name);
                match v {
                    Ok(raw) => (s2, Ok(Some(raw))),
                    Err(e) => (s2, Err(e)),
                }
            },
        }
    }

    /// A positional, matched against the input: the lowest unclaimed
    /// token, which is claimed only once its text has been converted.
    pub open spec fn positional_bind(self, name: Seq<char>, required: bool) -> Step<Option<int>> {
        match lowest(self.unclaimed) {
            Some(i) => (self, Ok(Some(i))),
            None => if required {
                (self, Err(ErrorView::MissingPositional(name)))
            } else {
                (self, Ok(None))
            },
        }
    }

    /// The unclaimed positions in ascending order.
    pub open spec fn unclaimed_order(self) -> Seq<int> {
        ascending(self.unclaimed, self.tokens.len() as int)
    }

    /// The tokens behind the token `--`.
    pub open spec fn trailing(self) -> Seq<Seq<char>> {
        match self.stop {
            Some(s) => self.tokens.skip(s + 1),
            None => Seq::empty(),
        }
    }

    /// What the variadic positional collects: every unclaimed token in
    /// ascending order, then every token behind `--` in its order.
    pub open spec fn variadic_raws(self) -> Seq<Seq<char>> {
        self.unclaimed_order().map_values(|i: int| self.tokens[i]) + self.trailing()
    }

    /// The nesting one level deeper.
    pub open spec fn enter(self) -> State {
        State { walk_depth: self.walk_depth + 1, ..self }
    }

    /// A subcommand was found: the committed path is one level longer, and
    /// the schema starts a new level.
    pub open spec fn commit(self, name: Seq<char>, desc: Seq<char>, long_desc: Seq<char>) -> State {
        State {
            commit_depth: self.commit_depth + 1,
            max_depth: if self.commit_depth + 1 > self.max_depth {
                self.commit_depth + 1
            } else {
                self.max_depth
            },
            schema: self.schema.new_level(name, desc, long_desc),
            ..self
        }
    }

    /// A subcommand up to the conversion of its token: the nesting deepens
    /// whether or not the declaration is read; where it is read, the first
    /// unclaimed token that reads `name` is claimed and is the result.
    pub open spec fn subcommand_probe(self, name: Seq<char>, desc: Seq<char>) -> Step<Option<int>> {
        let s0 = self.enter();
        if !s0.live(true) {
            (s0, Ok(None))
        } else {
            let s1 = if s0.help {
                s0.with_schema(s0.schema.add_subcommand(SubcommandView { name, desc }))
            } else {
                s0
            };
            if name.len() == 0 {
                (s1, Err(ErrorView::InvalidState("subcommand(...) given empty name"@)))
            } else {
                match s1.find_subcommand(name) {
                    Some(i) => (s1.claim(i), Ok(Some(i))),
                    None => (s1, Ok(None)),
                }
            }
        }
    }

    /// A counter: the option is looked for again and again until it is
    /// found no more. Each find counts once, or once for each character
    /// claimed in a cluster. A find that carries a value ends the count in
    /// a failure. The result is the count up to the end.
    pub open spec fn count_loop(self, c: char, name: Seq<char>) -> (State, nat, Option<ErrorView>)
        decreases self.potential(),
        when self.wf()
    {
        let (s1, r) = self.find_match(c, name, false);
        match r {
            Err(e) => (s1, 0, Some(e)),
            Ok(None) => (s1, 0, None),
            Ok(Some(m)) => {
                let s2 = s1.claim_match(m);
                match m.place {
                    Place::Absent => {
                        proof {
                            lemma_match_lowers_potential(self, c, name, false);
                        }
                        let (s3, n, e) = s2.count_loop(c, name);
                        (
                            s3,
                            n + if m.run_count == 0 {
                                1
                            } else {
                                m.run_count
                            },
                            e,
                        )
                    },
                    _ => (
                        s2,
                        0,
                        Some(ErrorView::InvalidInput(c, name, "count should not have a value"@)),
                    ),
                }
            },
        }
    }

    /// A list: the option is looked for, with its value, again and again
    /// until it is found no more. The result is the texts of the values in
    /// the order in which they were found, and the failure that ended the
    /// search, if one did. `seen` is the number of values found before.
    pub open spec fn list_all(self, c: char, name: Seq<char>, required: bool, seen: nat) -> (
        State,
        Seq<Seq<char>>,
        Option<ErrorView>,
    )
        decreases self.potential(),
        when self.wf()
    {
        let (s1, r) = self.arg_bind(c, name, false);
        match r {
            Err(e) => (s1, Seq::empty(), Some(e)),
            Ok(None) => if required && seen == 0 {
                (s1, Seq::empty(), Some(ErrorView::MissingArgument(option_name(c, name))))
            } else {
                (s1, Seq::empty(), None)
            },
            Ok(Some(raw)) => {
                proof {
                    lemma_match_lowers_potential(self, c, name, true);
                }
                let (s2, rest, e) = s1.list_all(c, name, required, seen + 1);
                (s2, seq![raw] + rest, e)
            },
        }
    }

    /// The state of a list after `k` of its values were found.
    pub open spec fn list_state(self, c: char, name: Seq<char>, k: nat) -> State
        decreases k,
    {
        if k == 0 {
            self
        } else {
            self.list_state(c, name, (k - 1) as nat).arg_bind(c, name, false).0
        }
    }
}

} // verus!
