//! The parser: the tokens, the consumption mask, the cluster states and the
//! scope tracker, with the match engine that works on them and the
//! declarations that are made to it.

use std::collections::BTreeMap;
use vstd::prelude::*;
use vstd::set_lib::{lemma_len_subset, set_int_range};
use vstd::string::{StrSliceExecFns, StringExecFns};
use crate::bits::{
    bits_ascending, bits_contains, bits_insert, bits_is_empty, bits_remove, bits_with_capacity,
    lists, members,
};
use crate::contracts::{
    arg_post, converts, count_post, flag_post, lemma_pushed_of_a_prefix, lemma_pushed_one_more,
    list_post, long_text, positional_list_post, positional_post, pushed, scope_post, shows,
    stepped, subcommand_post, unless_empty,
};
use crate::declare::{is_help_flag, Mode};
use crate::errors::{Error, ErrorView};
use crate::found::{Found, FoundMatch, ValueLocation};
use crate::lemmas::{
    covered, ints, lemma_claim, lemma_gap, lemma_initial_wf, lemma_listing,
    lemma_match_lowers_potential, lemma_run_lookup, lemma_scan, lemma_scan_skip, lemma_short_test,
};
use crate::model::{
    buried, cluster_shaped, dashes, hits, is_first_stop, is_lowest, lowest, stop_of, Matched, State,
};
use crate::printer::{
    lemma_group_added, lemma_groups_stay, option_label, text_of, views, App, AppView, Argument,
    Positional, PositionalView, Printer, Schema, Subcommand,
};
use crate::text::{chars_of, str_equals, string_push, suffix_from};
use crate::unused::{gathered, offset_entry, LooksLike, Unused, UnusedView};

verus! {

/// The state of one parse. It is made from the tokens of a command line and
/// then led through the declarations, in the order of the tree they form.
pub struct Parser {
    args: Vec<String>,
    mask: bit_set::BitSet,
    run_masks: BTreeMap<usize, bit_set::BitSet>,
    walk_depth: usize,
    commit_depth: usize,
    max_depth: usize,
    parse_done: bool,
    curr_group: Option<&'static str>,
    help: bool,
    has_variadic: bool,
    argstop: Option<usize>,
    failure: Option<Error>,
    printer: Printer,
}

/// The answer of the match engine over mathematical integers.
pub open spec fn answer(r: Result<Option<FoundMatch>, Error>) -> Matched {
    match r {
        Ok(Some(m)) => Ok(Some(m@)),
        Ok(None) => Ok(None),
        Err(e) => Err(e@),
    }
}

/// The offsets of `t` below `k` that hold `c`.
pub open spec fn hits_below(t: Seq<char>, c: char, k: int) -> Set<int> {
    Set::new(|j: int| 0 <= j < k && j < t.len() && t[j] == c)
}

impl View for Parser {
    type V = State;

    closed spec fn view(&self) -> State {
        State {
            tokens: Seq::new(self.args@.len(), |i: int| self.args@[i]@),
            stop: match self.argstop {
                Some(s) => Some(s as int),
                None => None,
            },
            unclaimed: members(self.mask),
            runs: Map::new(
                |i: int| 0 <= i <= usize::MAX && self.run_masks@.contains_key(i as usize),
                |i: int| members(self.run_masks@[i as usize]),
            ),
            walk_depth: self.walk_depth as nat,
            commit_depth: self.commit_depth as nat,
            max_depth: self.max_depth as nat,
            parse_done: self.parse_done,
            group: text_of(self.curr_group),
            help: self.help,
            variadic: self.has_variadic,
            failure: match self.failure {
                Some(e) => Some(e@),
                None => None,
            },
            schema: self.printer@,
        }
    }
}

/// The texts of `input`, in order.
pub open spec fn tokens_of(input: Seq<String>) -> Seq<Seq<char>> {
    Seq::new(input.len(), |i: int| input[i]@)
}

impl Parser {
    /// The parser's state is one that a parse can reach.
    pub open spec fn wf(&self) -> bool {
        self@.wf()
    }

    /// The parser is well formed and in state `s`.
    pub open spec fn lands(&self, s: State) -> bool {
        self.wf() && self@ == s
    }

    /// Looks for the short code in the token at `idx` taken as a cluster,
    /// and claims every open character of it that is the code.
    fn handle_run(&mut self, idx: usize, short: char, expect_value: bool) -> (r: Result<
        Option<FoundMatch>,
        Error,
    >)
        requires
            old(self).wf(),
            old(self)@.unclaimed.contains(idx as int),
            old(self)@.runs.contains_key(idx as int) || cluster_shaped(
                old(self)@.tokens[idx as int],
            ),
        ensures
            final(self).lands(old(self)@.run_lookup(idx as int, short, expect_value).0),
            answer(r) == old(self)@.run_lookup(idx as int, short, expect_value).1,
    {
        let ghost st = self@;
        proof {
            lemma_run_lookup(st, idx as int, short, expect_value);
        }
        assert(idx < self.args.len());
        let t = chars_of(self.args[idx].as_str());
        let n = t.len();
        assert(t@ == st.tokens[idx as int]);
        let mut any = false;
        let mut inside = false;
        let mut k: usize = 0;
        while k < n
            invariant
                k <= n,
                n == t@.len(),
                any == exists|j: int| 0 <= j < k && t@[j] == short,
                inside == exists|j: int| 1 <= j < k && j < n - 1 && t@[j] == short,
            decreases n - k,
        {
            if t[k] == short {
                any = true;
                if 1 <= k && k < n - 1 {
                    inside = true;
                }
            }
            k = k + 1;
        }
        assert(inside == buried(t@, short));
        if expect_value && inside {
            return Err(Error::ValuedArgInRun(short, self.args[idx].clone()));
        }
        proof {
            crate::lemmas::lemma_open_offsets(st, idx as int);
        }
        if !any {
            proof {
                let claimed = st.open_offsets(idx as int).intersect(hits(t@, short));
                assert forall|v: int| !claimed.contains(v) by {
                    if claimed.contains(v) {
                        assert(t@[v] == short);
                    }
                }
                assert(claimed =~= Set::<int>::empty());
            }
            return Ok(None);
        }
        let existed = self.run_masks.contains_key(&idx);
        let mut bits = match self.run_masks.remove(&idx) {
            Some(b) => b,
            None => {
                let mut fresh = bits_with_capacity(n);
                let mut j: usize = 1;
                assert(members(fresh) =~= set_int_range(1, 1));
                while j < n
                    invariant
                        1 <= j <= n,
                        members(fresh) == set_int_range(1, j as int),
                    decreases n - j,
                {
                    bits_insert(&mut fresh, j);
                    j = j + 1;
                    assert(members(fresh) =~= set_int_range(1, j as int));
                }
                fresh
            },
        };
        let ghost open = st.open_offsets(idx as int);
        let ghost bits0 = bits;
        assert(members(bits) == open);
        let mut count: usize = 0;
        k = 0;
        proof {
            assert(open.intersect(hits_below(t@, short, 0)) =~= Set::<int>::empty());
            assert(open.difference(hits_below(t@, short, 0)) =~= open);
        }
        while k < n
            invariant
                k <= n,
                n == t@.len(),
                open.finite(),
                members(bits) == open.difference(hits_below(t@, short, k as int)),
                count == open.intersect(hits_below(t@, short, k as int)).len(),
                count <= k,
                count == 0 ==> bits == bits0,
            decreases n - k,
        {
            let ghost before = open.intersect(hits_below(t@, short, k as int));
            proof {
                lemma_len_subset(before, open);
            }
            if t[k] == short && bits_contains(&bits, k) {
                bits_remove(&mut bits, k);
                count = count + 1;
                assert(open.intersect(hits_below(t@, short, k + 1)) =~= before.insert(k as int));
            } else {
                assert(open.intersect(hits_below(t@, short, k + 1)) =~= before);
            }
            k = k + 1;
            assert(members(bits) =~= open.difference(hits_below(t@, short, k as int)));
        }
        assert(hits_below(t@, short, n as int) =~= hits(t@, short));
        let ghost rest = open.difference(hits(t@, short));
        let emptied = bits_is_empty(&bits);
        proof {
            lemma_len_subset(rest, open);
            if rest.len() != 0 {
                assert(rest.contains(rest.choose()));
            } else {
                assert(rest =~= Set::<int>::empty());
            }
            assert(emptied == (rest.len() == 0));
        }
        if count == 0 {
            if existed {
                self.run_masks.insert(idx, bits);
                assert(self.run_masks@ =~= old(self).run_masks@);
            }
            assert(self@.runs =~= st.runs);
            return Ok(None);
        }
        let ghost kept = members(bits);
        self.run_masks.insert(idx, bits);
        assert(self.run_masks@ =~= old(self).run_masks@.insert(idx, bits));
        assert(self@.runs =~= st.runs.insert(idx as int, kept)) by {
            assert forall|i: int| #[trigger]
                st.runs.insert(idx as int, kept).contains_key(i) implies self@.runs.contains_key(
                i,
            ) by {
                assert(0 <= i <= usize::MAX);
            }
        }
        if emptied {
            bits_remove(&mut self.mask, idx);
        }
        Ok(
            Some(
                FoundMatch::new(
                    idx,
                    count,
                    if expect_value {
                        ValueLocation::TakesNext
                    } else {
                        ValueLocation::Unknown
                    },
                ),
            ),
        )
    }

    /// Tests the token at `idx` against the short code.
    fn matches_short(&mut self, idx: usize, short: char, expect_value: bool) -> (r: Result<
        Option<FoundMatch>,
        Error,
    >)
        requires
            old(self).wf(),
            old(self)@.unclaimed.contains(idx as int),
        ensures
            final(self).lands(old(self)@.short_test(idx as int, short, expect_value).0),
            answer(r) == old(self)@.short_test(idx as int, short, expect_value).1,
    {
        proof {
            lemma_short_test(self@, idx as int, short, expect_value);
        }
        if short == '\0' {
            return Ok(None);
        }
        assert(idx < self.args.len());
        let t = chars_of(self.args[idx].as_str());
        if t.len() < 2 {
            return Ok(None);
        }
        if self.run_masks.contains_key(&idx) {
            return self.handle_run(idx, short, expect_value);
        }
        if t[0] != '-' || t[1] == '-' {
            return Ok(None);
        }
        if t[1] != short {
            if t.len() > 2 && t[2] != '=' {
                return self.handle_run(idx, short, expect_value);
            }
            return Ok(None);
        }
        if t.len() == 2 {
            let has_next = bits_contains(&self.mask, idx + 1);
            return if expect_value && has_next {
                Ok(Some(FoundMatch::new(idx, 0, ValueLocation::TakesNext)))
            } else {
                Ok(Some(FoundMatch::new(idx, 0, ValueLocation::Unknown)))
            };
        }
        if t[2] == '=' {
            return Ok(Some(FoundMatch::new(idx, 0, ValueLocation::HasEqual(2))));
        }
        self.handle_run(idx, short, expect_value)
    }

    /// Tests the token at `idx` against the long name.
    fn matches_long(&self, idx: usize, long: &str, expect_value: bool) -> (r: Option<FoundMatch>)
        requires
            self.wf(),
            self@.unclaimed.contains(idx as int),
        ensures
            match r {
                Some(m) => self@.long_test(idx as int, long@, expect_value) == Some(m@),
                None => self@.long_test(idx as int, long@, expect_value) is None,
            },
    {
        let name = chars_of(long);
        if name.len() == 0 {
            return None;
        }
        assert(idx < self.args.len());
        let t = chars_of(self.args[idx].as_str());
        if t.len() < 2 || t.len() - 2 < name.len() {
            return None;
        }
        let end = 2 + name.len();
        if t[0] != '-' || t[1] != '-' {
            assert(t@.subrange(0, 2)[0] == t@[0] && t@.subrange(0, 2)[1] == t@[1]);
            assert(dashes()[0] == '-' && dashes()[1] == '-');
            return None;
        }
        assert(t@.subrange(0, 2) =~= dashes());
        let mut k: usize = 0;
        while k < name.len()
            invariant
                k <= name.len(),
                end == 2 + name.len(),
                end <= t.len(),
                name@ == long@,
                name.len() > 0,
                t@ == self@.tokens[idx as int],
                t@.subrange(0, 2) == dashes(),
                forall|j: int| 0 <= j < k ==> t@[2 + j] == name@[j],
            decreases name.len() - k,
        {
            if t[2 + k] != name[k] {
                assert(t@.subrange(2, end as int)[k as int] == t@[2 + k]);
                assert(t@.subrange(2, end as int) != name@);
                return None;
            }
            k = k + 1;
        }
        assert(t@.subrange(2, end as int) =~= name@);
        if t.len() == end {
            let has_next = bits_contains(&self.mask, idx + 1);
            return Some(
                FoundMatch::new(
                    idx,
                    0,
                    if expect_value && has_next {
                        ValueLocation::TakesNext
                    } else {
                        ValueLocation::Unknown
                    },
                ),
            );
        }
        if t[end] == '=' {
            return Some(FoundMatch::new(idx, 0, ValueLocation::HasEqual(end)));
        }
        None
    }

    /// Finds the first unclaimed token that matches the option, in its
    /// short form or in its long form.
    fn find_match(&mut self, short: char, long: &str, expect_value: bool) -> (r: Result<
        Option<FoundMatch>,
        Error,
    >)
        requires
            old(self).wf(),
        ensures
            final(self).lands(old(self)@.find_match(short, long@, expect_value).0),
            answer(r) == old(self)@.find_match(short, long@, expect_value).1,
    {
        let ghost st = self@;
        let idxs = bits_ascending(&self.mask);
        let mut k: usize = 0;
        while k < idxs.len()
            invariant
                k <= idxs.len(),
                self.wf(),
                st == old(self)@,
                self@.unclaimed == st.unclaimed,
                lists(idxs@, st.unclaimed),
                st.scan(short, long@, expect_value, 0) == self@.scan(
                    short,
                    long@,
                    expect_value,
                    covered(idxs@, k as int),
                ),
            decreases idxs.len() - k,
        {
            let i = idxs[k];
            let ghost cur = self@;
            let ghost (s1, r1) = cur.short_test(i as int, short, expect_value);
            proof {
                assert(st.unclaimed.contains(idxs@[k as int] as int));
                assert forall|v: int| covered(idxs@, k as int) <= v < i implies !cur.unclaimed.contains(
                    v,
                ) by {
                    lemma_gap(idxs@, st.unclaimed, k as int, v);
                }
                if k > 0 {
                    assert(idxs@[k - 1] < idxs@[k as int]);
                }
                lemma_scan_skip(cur, short, long@, expect_value, covered(idxs@, k as int), i as int);
                lemma_short_test(cur, i as int, short, expect_value);
            }
            match self.matches_short(i, short, expect_value) {
                Ok(Some(m)) => {
                    return Ok(Some(m));
                },
                Err(e) => {
                    return Err(e);
                },
                Ok(None) => {},
            }
            match self.matches_long(i, long, expect_value) {
                Some(m) => {
                    return Ok(Some(m));
                },
                None => {},
            }
            k = k + 1;
        }
        proof {
            let cur = self@;
            let end = covered(idxs@, k as int);
            assert forall|v: int| end <= v < cur.tokens.len() implies !cur.unclaimed.contains(v) by {
                lemma_gap(idxs@, st.unclaimed, k as int, v);
            }
            if k > 0 {
                assert(st.unclaimed.contains(idxs@[k - 1] as int));
            }
            lemma_scan_skip(cur, short, long@, expect_value, end, cur.tokens.len() as int);
        }
        Ok(None)
    }

    /// Finds the first unclaimed token that reads `name`.
    fn find_subcommand(&self, name: &str) -> (r: Option<FoundMatch>)
        requires
            self.wf(),
        ensures
            match r {
                Some(m) => self@.find_subcommand(name@) == Some(m.index as int) && m.run_count
                    == 0 && m.value is Unknown,
                None => self@.find_subcommand(name@) is None,
            },
    {
        let ghost st = self@;
        let ghost wanted = st.reading(name@);
        let idxs = bits_ascending(&self.mask);
        let mut k: usize = 0;
        while k < idxs.len()
            invariant
                k <= idxs.len(),
                self.wf(),
                st == self@,
                wanted == st.reading(name@),
                lists(idxs@, st.unclaimed),
                forall|j: int| 0 <= j < k ==> st.tokens[#[trigger] idxs@[j] as int] != name@,
            decreases idxs.len() - k,
        {
            let i = idxs[k];
            assert(st.unclaimed.contains(idxs@[k as int] as int));
            assert(i < self.args.len());
            if crate::text::str_equals(self.args[i].as_str(), name) {
                proof {
                    assert(wanted.contains(i as int));
                    assert forall|v: int| wanted.contains(v) implies i <= v by {
                        let j = choose|j: int| 0 <= j < idxs@.len() && idxs@[j] as int == v;
                        if j < k {
                            assert(st.tokens[idxs@[j] as int] != name@);
                        } else if j > k {
                            assert(idxs@[k as int] < idxs@[j]);
                        }
                    }
                    assert(crate::model::is_lowest(wanted, i as int));
                    let c = choose|c: int| crate::model::is_lowest(wanted, c);
                    assert(c == i);
                }
                return Some(FoundMatch::new(i, 0, ValueLocation::Unknown));
            }
            k = k + 1;
        }
        proof {
            assert forall|v: int| !wanted.contains(v) by {
                if wanted.contains(v) {
                    let j = choose|j: int| 0 <= j < idxs@.len() && idxs@[j] as int == v;
                    assert(st.tokens[idxs@[j] as int] != name@);
                }
            }
        }
        None
    }

    /// Whether a declaration at the current nesting is passed over.
    fn should_ignore(&self, is_subcmd: bool) -> (r: bool)
        ensures
            r == !self@.live(is_subcmd),
    {
        if self.parse_done {
            return true;
        }
        if is_subcmd {
            self.walk_depth == 0 || self.walk_depth - 1 != self.commit_depth
        } else {
            self.walk_depth != self.max_depth
        }
    }

    /// Claims what a match found: its token, unless the match lies in a
    /// cluster, whose characters the search has claimed already.
    fn claim_found(&mut self, found: &FoundMatch)
        requires
            old(self).wf(),
        ensures
            final(self).lands(old(self)@.claim_match(found@)),
    {
        if found.run_count == 0 {
            proof {
                lemma_claim(self@, found.index as int);
            }
            bits_remove(&mut self.mask, found.index);
        }
    }

    /// Keeps `e` as the failure of this parse.
    fn record(&mut self, e: &Error)
        requires
            old(self).wf(),
        ensures
            final(self).lands(old(self)@.fail(e@)),
    {
        self.failure = Some(e.duplicate());
        proof {
            crate::lemmas::lemma_same_offer(old(self)@, self@);
            assert(self@.wf());
        }
    }

    /// Whether the flag is the help flag, by its short code or its long
    /// name.
    fn is_help_flags(&self, short: char, long: &str) -> (r: bool)
        ensures
            r == is_help_flag(short, long@),
    {
        short == 'h' || str_equals(long, "help")
    }

    /// Whether help was asked for. While it is, declarations register
    /// themselves for the help and bind nothing.
    pub fn wants_help(&self) -> (r: bool)
        ensures
            r == self@.help,
    {
        self.help
    }

    /// Closes the scope that the last `subcommand` or `group` opened.
    pub fn done(&mut self) -> (r: Result<&mut Parser, Error>)
        requires
            old(self).wf(),
        ensures
            r matches Ok(p) ==> *final(p) == *final(self),
            scope_post(
                match r {
                    Ok(p) => *p,
                    Err(_) => *final(self),
                },
                match r {
                    Ok(_) => None,
                    Err(e) => Some(e),
                },
                old(self)@.done(),
            ),
    {
        if let Some(e) = &self.failure {
            return Err(e.duplicate());
        }
        if self.curr_group.is_some() {
            self.curr_group = None;
            proof {
                crate::lemmas::lemma_same_offer(old(self)@, self@);
            }
            return Ok(self);
        }
        if self.walk_depth == 0 {
            let e = Error::InvalidState("call to done() at top-level");
            self.record(&e);
            return Err(e);
        }
        if self.walk_depth == self.commit_depth && self.commit_depth == self.max_depth {
            self.parse_done = true;
        }
        self.walk_depth = self.walk_depth - 1;
        proof {
            crate::lemmas::lemma_same_offer(old(self)@, self@);
        }
        Ok(self)
    }

    /// Opens a named section of the help. It holds the options declared up
    /// to the matching `done` and has no part in matching. The group is
    /// open in whatever scope it is declared, so that its `done` closes it
    /// and nothing else; it is registered only in the scope that is read.
    pub fn group(&mut self, name: &'static str, desc: &'static str) -> (r: Result<
        &mut Parser,
        Error,
    >)
        requires
            old(self).wf(),
        ensures
            r matches Ok(p) ==> *final(p) == *final(self),
            scope_post(
                match r {
                    Ok(p) => *p,
                    Err(_) => *final(self),
                },
                match r {
                    Ok(_) => None,
                    Err(e) => Some(e),
                },
                old(self)@.group(name@, desc@),
            ),
    {
        if let Some(e) = &self.failure {
            return Err(e.duplicate());
        }
        if let Some(orig) = self.curr_group {
            let e = Error::NestedGroup(orig, name);
            self.record(&e);
            return Err(e);
        }
        let read = !self.should_ignore(false);
        self.curr_group = Some(name);
        if read && self.help {
            let _ = self.printer.add_group(name, desc);
            proof {
                lemma_group_added(old(self)@.schema, name@, desc@);
            }
        }
        proof {
            crate::lemmas::lemma_same_offer(old(self)@, self@);
        }
        Ok(self)
    }

    /// Registers an option for the help under the open group.
    fn register(&mut self, opt: Argument)
        requires
            old(self).wf(),
            old(self)@.help,
            old(self)@.live(false),
        ensures
            final(self).lands(old(self)@.register_arg(opt@)),
    {
        proof {
            if self@.group is Some {
                lemma_groups_stay(self@.schema, self@.group->0);
            }
        }
        let _ = self.printer.add_arg(opt, self.curr_group);
        proof {
            crate::lemmas::lemma_same_offer(old(self)@, self@);
        }
    }

    /// Declares a flag: an option without a value. Where it is given,
    /// `into` becomes `!invert`.
    pub fn flag(
        &mut self,
        short: char,
        long: &'static str,
        desc: &'static str,
        into: &mut bool,
        invert: bool,
    ) -> (r: Result<&mut Parser, Error>)
        requires
            old(self).wf(),
        ensures
            r matches Ok(p) ==> *final(p) == *final(self),
            flag_post(
                old(self)@,
                match r {
                    Ok(p) => *p,
                    Err(_) => *final(self),
                },
                match r {
                    Ok(_) => None,
                    Err(e) => Some(e),
                },
                *old(into),
                *final(into),
                short,
                long@,
                desc@,
                invert,
            ),
    {
        if let Some(e) = &self.failure {
            return Err(e.duplicate());
        }
        if self.should_ignore(false) {
            return Ok(self);
        }
        if self.help {
            let shown = if *into {
                "true".to_owned()
            } else {
                "false".to_owned()
            };
            self.register(Argument::new(short, long, desc, None, Some(shown), false));
            if !self.is_help_flags(short, long) {
                return Ok(self);
            }
        }
        proof {
            lemma_scan(self@, short, long@, false, 0);
        }
        let found = match self.find_match(short, long, false) {
            Ok(Some(m)) => m,
            Ok(None) => {
                return Ok(self);
            },
            Err(e) => {
                self.record(&e);
                return Err(e);
            },
        };
        self.claim_found(&found);
        match found.value {
            ValueLocation::Unknown => {
                *into = !invert;
                Ok(self)
            },
            _ => {
                let e = Error::InvalidInput(short, long, "flag should not have a value");
                self.record(&e);
                Err(e)
            },
        }
    }

    /// A parser for the tokens of a command line, the first being the
    /// program's name. The help flag is looked for at once.
    pub fn from_strings(input: Vec<String>) -> (r: Parser)
        ensures
            r.lands(State::started(tokens_of(input@))),
    {
        let ghost tokens = tokens_of(input@);
        let mut argstop: Option<usize> = None;
        let mut i: usize = 0;
        while i < input.len()
            invariant_except_break
                argstop is None,
                forall|j: int| 0 <= j < i ==> tokens[j] != dashes(),
            invariant
                i <= input.len(),
                tokens == tokens_of(input@),
            ensures
                match argstop {
                    Some(s) => is_first_stop(tokens, s as int),
                    None => forall|j: int| 0 <= j < tokens.len() ==> tokens[j] != dashes(),
                },
            decreases input.len() - i,
        {
            let t = chars_of(input[i].as_str());
            if t.len() == 2 && t[0] == '-' && t[1] == '-' {
                assert(t@ =~= dashes());
                argstop = Some(i);
                break;
            }
            assert(t@ != dashes()) by {
                assert(dashes().len() == 2 && dashes()[0] == '-' && dashes()[1] == '-');
            }
            i = i + 1;
        }
        proof {
            match argstop {
                Some(s) => {
                    let c = choose|c: int| is_first_stop(tokens, c);
                    assert(c == s);
                },
                None => {},
            }
            assert(stop_of(tokens) == match argstop {
                Some(s) => Some(s as int),
                None => None,
            });
        }
        let count = match argstop {
            Some(s) => s,
            None => input.len(),
        };
        let mut bits = bits_with_capacity(count);
        let mut j: usize = 1;
        assert(members(bits) =~= set_int_range(1, 1));
        while j < count
            invariant
                1 <= j,
                j <= count || j == 1,
                count <= input.len(),
                members(bits) == set_int_range(1, j as int),
            decreases count - j,
        {
            bits_insert(&mut bits, j);
            j = j + 1;
            assert(members(bits) =~= set_int_range(1, j as int));
        }
        assert(members(bits) =~= set_int_range(1, count as int));
        let mut p = Parser {
            args: input,
            mask: bits,
            run_masks: BTreeMap::new(),
            walk_depth: 0,
            commit_depth: 0,
            max_depth: 0,
            parse_done: false,
            curr_group: None,
            help: false,
            has_variadic: false,
            argstop,
            failure: None,
            printer: Printer::new(App::empty()),
        };
        proof {
            lemma_initial_wf(tokens);
            assert(p@.runs =~= Map::<int, Set<int>>::empty());
            assert(p@.tokens =~= tokens);
            assert(p@ == State::initial(tokens));
        }
        let mut wants_help = false;
        match p.flag('h', "help", "print this help dialog", &mut wants_help, false) {
            Ok(_) => {},
            Err(_) => {},
        }
        p.help = wants_help;
        proof {
            crate::laws::lemma_start_of_a_parse(tokens);
        }
        p
    }

    /// Claims what a match found and fetches the text of its value.
    fn take_value(&mut self, found: &FoundMatch, short: char, long: &'static str) -> (r: Result<
        String,
        Error,
    >)
        requires
            old(self).wf(),
            0 <= found.index < old(self)@.tokens.len(),
            found.value matches ValueLocation::HasEqual(off) ==> off < old(self)@.tokens[found.index as int].len(),
        ensures
            match r {
                Ok(v) => final(self).lands(old(self)@.take_value(found@, short, long@).0)
                    && old(self)@.take_value(found@, short, long@).1 == Ok::<
                    Seq<char>,
                    ErrorView,
                >(v@),
                Err(e) => final(self).lands(old(self)@.take_value(found@, short, long@).0)
                    && old(self)@.take_value(found@, short, long@).1 == Err::<
                    Seq<char>,
                    ErrorView,
                >(e@),
            },
    {
        assert(found.index < self.args.len());
        self.claim_found(found);
        match found.value {
            ValueLocation::Unknown => Err(Error::MissingArgValue(short, long)),
            ValueLocation::TakesNext => {
                if !bits_contains(&self.mask, found.index + 1) {
                    return Err(Error::MissingArgValue(short, long));
                }
                proof {
                    lemma_claim(self@, found.index + 1);
                }
                bits_remove(&mut self.mask, found.index + 1);
                assert(found.index + 1 < self.args.len());
                Ok(self.args[found.index + 1].clone())
            },
            ValueLocation::HasEqual(off) => {
                let token = self.args[found.index].as_str();
                let n = token.unicode_len();
                Ok(suffix_from(token, off + 1))
            },
        }
    }

    /// Declares an option that takes one value, written `-s value`,
    /// `-s=value`, `--long value` or `--long=value`. `parse` turns the text
    /// of the value into the value that `into` receives.
    pub fn arg<T: std::fmt::Display, F: Fn(&str) -> Result<T, String>>(
        &mut self,
        short: char,
        long: &'static str,
        desc: &'static str,
        into: &mut T,
        label: Option<&'static str>,
        required: bool,
        parse: F,
    ) -> (r: Result<&mut Parser, Error>)
        requires
            old(self).wf(),
            forall|s: &str| parse.requires((s,)),
        ensures
            r matches Ok(p) ==> *final(p) == *final(self),
            arg_post(
                old(self)@,
                match r {
                    Ok(p) => *p,
                    Err(_) => *final(self),
                },
                match r {
                    Ok(_) => None,
                    Err(e) => Some(e),
                },
                *old(into),
                *final(into),
                short,
                long@,
                desc@,
                text_of(label),
                required,
                parse,
            ),
    {
        if let Some(e) = &self.failure {
            return Err(e.duplicate());
        }
        if self.should_ignore(false) {
            return Ok(self);
        }
        if self.help {
            let shown = (*into).to_string();
            assert(shows(&*old(into), shown@));
            self.register(Argument::new(short, long, desc, label, Some(shown), required));
            return Ok(self);
        }
        proof {
            lemma_scan(self@, short, long@, true, 0);
        }
        let found = match self.find_match(short, long, true) {
            Ok(Some(m)) => m,
            Ok(None) => {
                if required {
                    let e = Error::MissingArgument(option_label(short, long));
                    self.record(&e);
                    return Err(e);
                }
                return Ok(self);
            },
            Err(e) => {
                self.record(&e);
                return Err(e);
            },
        };
        let raw = match self.take_value(&found, short, long) {
            Ok(v) => v,
            Err(e) => {
                self.record(&e);
                return Err(e);
            },
        };
        match parse(raw.as_str()) {
            Ok(v) => {
                *into = v;
                Ok(self)
            },
            Err(m) => {
                let e = Error::ConstructionError(short, long, m);
                self.record(&e);
                Err(e)
            },
        }
    }

    /// An option with one value and no long name.
    pub fn short_arg<T: std::fmt::Display, F: Fn(&str) -> Result<T, String>>(
        &mut self,
        short: char,
        desc: &'static str,
        into: &mut T,
        label: Option<&'static str>,
        required: bool,
        parse: F,
    ) -> (r: Result<&mut Parser, Error>)
        requires
            old(self).wf(),
            forall|s: &str| parse.requires((s,)),
        ensures
            r matches Ok(p) ==> *final(p) == *final(self),
            arg_post(
                old(self)@,
                match r {
                    Ok(p) => *p,
                    Err(_) => *final(self),
                },
                match r {
                    Ok(_) => None,
                    Err(e) => Some(e),
                },
                *old(into),
                *final(into),
                short,
                ""@,
                desc@,
                text_of(label),
                required,
                parse,
            ),
    {
        self.arg(short, "", desc, into, label, required, parse)
    }

    /// An option with one value and no short code.
    pub fn long_arg<T: std::fmt::Display, F: Fn(&str) -> Result<T, String>>(
        &mut self,
        long: &'static str,
        desc: &'static str,
        into: &mut T,
        label: Option<&'static str>,
        required: bool,
        parse: F,
    ) -> (r: Result<&mut Parser, Error>)
        requires
            old(self).wf(),
            forall|s: &str| parse.requires((s,)),
        ensures
            r matches Ok(p) ==> *final(p) == *final(self),
            arg_post(
                old(self)@,
                match r {
                    Ok(p) => *p,
                    Err(_) => *final(self),
                },
                match r {
                    Ok(_) => None,
                    Err(e) => Some(e),
                },
                *old(into),
                *final(into),
                '\0',
                long@,
                desc@,
                text_of(label),
                required,
                parse,
            ),
    {
        self.arg('\0', long, desc, into, label, required, parse)
    }

    /// The lowest unclaimed position, if any is left.
    fn lowest_unclaimed(&self) -> (r: Option<usize>)
        requires
            self.wf(),
        ensures
            match r {
                Some(i) => lowest(self@.unclaimed) == Some(i as int) && self@.unclaimed.contains(
                    i as int,
                ),
                None => lowest(self@.unclaimed) is None && self@.unclaimed =~= Set::<int>::empty(),
            },
    {
        let idxs = bits_ascending(&self.mask);
        if idxs.len() == 0 {
            proof {
                assert forall|v: int| !self@.unclaimed.contains(v) by {
                    if self@.unclaimed.contains(v) {
                        let j = choose|j: int| 0 <= j < idxs@.len() && idxs@[j] as int == v;
                    }
                }
            }
            return None;
        }
        let i = idxs[0];
        proof {
            assert(self@.unclaimed.contains(idxs@[0] as int));
            assert forall|v: int| self@.unclaimed.contains(v) implies i <= v by {
                let j = choose|j: int| 0 <= j < idxs@.len() && idxs@[j] as int == v;
                if j > 0 {
                    assert(idxs@[0] < idxs@[j]);
                }
            }
            assert(is_lowest(self@.unclaimed, i as int));
            let c = choose|c: int| is_lowest(self@.unclaimed, c);
            assert(c == i);
        }
        Some(i)
    }

    /// Declares a positional: it takes the first token that nothing has
    /// claimed. `parse` turns the token into the value that `into` receives.
    pub fn positional<T: std::fmt::Display, F: Fn(&str) -> Result<T, String>>(
        &mut self,
        name: &'static str,
        desc: &'static str,
        into: &mut T,
        required: bool,
        parse: F,
    ) -> (r: Result<&mut Parser, Error>)
        requires
            old(self).wf(),
            forall|s: &str| parse.requires((s,)),
        ensures
            r matches Ok(p) ==> *final(p) == *final(self),
            positional_post(
                old(self)@,
                match r {
                    Ok(p) => *p,
                    Err(_) => *final(self),
                },
                match r {
                    Ok(_) => None,
                    Err(e) => Some(e),
                },
                *old(into),
                *final(into),
                name@,
                desc@,
                required,
                parse,
            ),
    {
        if let Some(e) = &self.failure {
            return Err(e.duplicate());
        }
        if self.should_ignore(false) {
            return Ok(self);
        }
        if self.has_variadic {
            let e = Error::UnorderedPositionals(name);
            self.record(&e);
            return Err(e);
        }
        if self.help {
            let shown = (*into).to_string();
            assert(shows(&*old(into), shown@));
            let ghost shown_text = shown@;
            let default = if shown.as_str().unicode_len() == 0 {
                None
            } else {
                Some(shown)
            };
            proof {
                if self@.group is Some && self@.schema.has_group(self@.group->0) {
                    lemma_groups_stay(self@.schema, self@.group->0);
                }
            }
            let _ = self.printer.add_positional(
                Positional::new(name, desc, default, required, false),
            );
            proof {
                crate::lemmas::lemma_same_offer(old(self)@, self@);
                assert(self.lands(
                    old(self)@.with_schema(
                        old(self)@.schema.add_positional(
                            PositionalView {
                                name: name@,
                                desc: desc@,
                                default: unless_empty(shown_text),
                                required,
                                variadic: false,
                            },
                        ),
                    ),
                ));
            }
            return Ok(self);
        }
        let idx = match self.lowest_unclaimed() {
            Some(i) => i,
            None => {
                if required {
                    let e = Error::MissingPositional(name.to_owned());
                    self.record(&e);
                    return Err(e);
                }
                return Ok(self);
            },
        };
        assert(idx < self.args.len());
        match parse(self.args[idx].as_str()) {
            Ok(v) => {
                *into = v;
                proof {
                    lemma_claim(self@, idx as int);
                }
                bits_remove(&mut self.mask, idx);
                Ok(self)
            },
            Err(m) => {
                let e = Error::PositionalConstructionError(name, m);
                self.record(&e);
                Err(e)
            },
        }
    }

    /// Declares a subcommand and opens its scope, which `done` closes. What
    /// is declared in the scope is read only if the subcommand is given.
    /// `parse` turns its token into the value that is appended to `into`.
    pub fn subcommand<T, F: Fn(&str) -> Result<T, String>>(
        &mut self,
        name: &'static str,
        desc: &'static str,
        into: &mut Vec<T>,
        long_desc: Option<&'static str>,
        parse: F,
    ) -> (r: Result<&mut Parser, Error>)
        requires
            old(self).wf(),
            old(self)@.walk_depth < usize::MAX,
            forall|s: &str| parse.requires((s,)),
        ensures
            r matches Ok(p) ==> *final(p) == *final(self),
            subcommand_post(
                old(self)@,
                match r {
                    Ok(p) => *p,
                    Err(_) => *final(self),
                },
                match r {
                    Ok(_) => None,
                    Err(e) => Some(e),
                },
                old(into)@,
                final(into)@,
                name@,
                desc@,
                long_text(long_desc),
                parse,
            ),
    {
        if let Some(e) = &self.failure {
            return Err(e.duplicate());
        }
        self.walk_depth = self.walk_depth + 1;
        proof {
            crate::lemmas::lemma_same_offer(old(self)@, self@);
        }
        if self.should_ignore(true) {
            return Ok(self);
        }
        if self.help {
            proof {
                if self@.group is Some && self@.schema.has_group(self@.group->0) {
                    lemma_groups_stay(self@.schema, self@.group->0);
                }
            }
            self.printer.add_subcommand(Subcommand::new(name, desc));
            proof {
                crate::lemmas::lemma_same_offer(old(self)@, self@);
            }
        }
        if name.unicode_len() == 0 {
            let e = Error::InvalidState("subcommand(...) given empty name");
            self.record(&e);
            return Err(e);
        }
        let info = match self.find_subcommand(name) {
            Some(m) => m,
            None => {
                return Ok(self);
            },
        };
        proof {
            lemma_claim(self@, info.index as int);
            crate::lemmas::lemma_lowest_is_member(self@.reading(name@));
        }
        assert(info.index < self.args.len());
        bits_remove(&mut self.mask, info.index);
        match parse(self.args[info.index].as_str()) {
            Ok(v) => {
                into.push(v);
                assert(into@.drop_last() =~= old(into)@);
            },
            Err(m) => {
                let e = Error::SubConstructionError(name, m);
                self.record(&e);
                return Err(e);
            },
        }
        let ghost claimed = self@;
        self.commit_depth = self.commit_depth + 1;
        if self.commit_depth > self.max_depth {
            self.max_depth = self.commit_depth;
        }
        proof {
            if self@.group is Some && self@.schema.has_group(self@.group->0) {
                lemma_groups_stay(self@.schema, self@.group->0);
            }
        }
        self.printer.new_level(
            name,
            desc,
            match long_desc {
                Some(d) => d,
                None => "",
            },
        );
        proof {
            crate::lemmas::lemma_same_offer(claimed, self@);
        }
        Ok(self)
    }

    /// Declares a counter: `advance` moves `into` on by `step` each time
    /// the option is given, and in a cluster once for each of its
    /// characters: `-v` counts once, `-vvvv` four times.
    pub fn count<T: std::fmt::Display, F: Fn(&T, &T) -> T>(
        &mut self,
        short: char,
        long: &'static str,
        desc: &'static str,
        into: &mut T,
        step: T,
        advance: F,
    ) -> (r: Result<&mut Parser, Error>)
        requires
            old(self).wf(),
            forall|a: &T, b: &T| advance.requires((a, b)),
        ensures
            r matches Ok(p) ==> *final(p) == *final(self),
            count_post(
                old(self)@,
                match r {
                    Ok(p) => *p,
                    Err(_) => *final(self),
                },
                match r {
                    Ok(_) => None,
                    Err(e) => Some(e),
                },
                *old(into),
                *final(into),
                short,
                long@,
                desc@,
                step,
                advance,
            ),
    {
        if let Some(e) = &self.failure {
            return Err(e.duplicate());
        }
        if self.should_ignore(false) {
            return Ok(self);
        }
        if self.help {
            let shown = (*into).to_string();
            assert(shows(&*old(into), shown@));
            self.register(Argument::new(short, long, desc, None, Some(shown), false));
            return Ok(self);
        }
        let ghost before = self@;
        let ghost mut done: nat = 0;
        loop
            invariant
                self.wf(),
                before == old(self)@,
                before.wf(),
                before.mode() is Bind,
                self@.failure is None,
                forall|a: &T, b: &T| advance.requires((a, b)),
                before.count_loop(short, long@) == ({
                    let (s, n, e) = self@.count_loop(short, long@);
                    (s, done + n, e)
                }),
                stepped(advance, *old(into), step, done, *into),
            decreases self@.potential(),
        {
            let ghost cur = self@;
            proof {
                lemma_match_lowers_potential(cur, short, long@, false);
            }
            let found = match self.find_match(short, long, false) {
                Ok(Some(m)) => m,
                Ok(None) => {
                    return Ok(self);
                },
                Err(e) => {
                    self.record(&e);
                    return Err(e);
                },
            };
            self.claim_found(&found);
            match found.value {
                ValueLocation::Unknown => {
                    let times = if found.run_count == 0 {
                        1
                    } else {
                        found.run_count
                    };
                    let mut k: usize = 0;
                    while k < times
                        invariant
                            k <= times,
                            forall|a: &T, b: &T| advance.requires((a, b)),
                            stepped(advance, *old(into), step, done + k as nat, *into),
                        decreases times - k,
                    {
                        let ghost mid = *into;
                        let next = advance(&*into, &step);
                        *into = next;
                        k = k + 1;
                        assert(advance.ensures((&mid, &step), *into));
                    }
                    proof {
                        done = done + times as nat;
                    }
                },
                _ => {
                    let e = Error::InvalidInput(short, long, "count should not have a value");
                    self.record(&e);
                    return Err(e);
                },
            }
        }
    }

    /// A counter without a long name.
    pub fn short_count<T: std::fmt::Display, F: Fn(&T, &T) -> T>(
        &mut self,
        short: char,
        desc: &'static str,
        into: &mut T,
        step: T,
        advance: F,
    ) -> (r: Result<&mut Parser, Error>)
        requires
            old(self).wf(),
            forall|a: &T, b: &T| advance.requires((a, b)),
        ensures
            r matches Ok(p) ==> *final(p) == *final(self),
            count_post(
                old(self)@,
                match r {
                    Ok(p) => *p,
                    Err(_) => *final(self),
                },
                match r {
                    Ok(_) => None,
                    Err(e) => Some(e),
                },
                *old(into),
                *final(into),
                short,
                ""@,
                desc@,
                step,
                advance,
            ),
    {
        self.count(short, "", desc, into, step, advance)
    }

    /// A counter without a short code.
    pub fn long_count<T: std::fmt::Display, F: Fn(&T, &T) -> T>(
        &mut self,
        long: &'static str,
        desc: &'static str,
        into: &mut T,
        step: T,
        advance: F,
    ) -> (r: Result<&mut Parser, Error>)
        requires
            old(self).wf(),
            forall|a: &T, b: &T| advance.requires((a, b)),
        ensures
            r matches Ok(p) ==> *final(p) == *final(self),
            count_post(
                old(self)@,
                match r {
                    Ok(p) => *p,
                    Err(_) => *final(self),
                },
                match r {
                    Ok(_) => None,
                    Err(e) => Some(e),
                },
                *old(into),
                *final(into),
                '\0',
                long@,
                desc@,
                step,
                advance,
            ),
    {
        self.count('\0', long, desc, into, step, advance)
    }

    /// Declares an option that can be given several times, each time with
    /// a value. `parse` turns each value into an item that is appended to
    /// `into`, in the order in which the values are found.
    pub fn list<T, F: Fn(&str) -> Result<T, String>>(
        &mut self,
        short: char,
        long: &'static str,
        desc: &'static str,
        into: &mut Vec<T>,
        label: Option<&'static str>,
        required: bool,
        parse: F,
    ) -> (r: Result<&mut Parser, Error>)
        requires
            old(self).wf(),
            forall|s: &str| parse.requires((s,)),
        ensures
            r matches Ok(p) ==> *final(p) == *final(self),
            list_post(
                old(self)@,
                match r {
                    Ok(p) => *p,
                    Err(_) => *final(self),
                },
                match r {
                    Ok(_) => None,
                    Err(e) => Some(e),
                },
                old(into)@,
                final(into)@,
                short,
                long@,
                desc@,
                text_of(label),
                required,
                parse,
            ),
    {
        if let Some(e) = &self.failure {
            return Err(e.duplicate());
        }
        if self.should_ignore(false) {
            return Ok(self);
        }
        if self.help {
            self.register(Argument::new(short, long, desc, label, None, required));
            return Ok(self);
        }
        let ghost before = self@;
        let ghost mut k: nat = 0;
        let ghost mut taken: Seq<Seq<char>> = Seq::empty();
        let mut any = false;
        assert(into@.take(into@.len() as int) =~= into@);
        loop
            invariant
                self.wf(),
                before == old(self)@,
                before.wf(),
                before.mode() is Bind,
                self@.failure is None,
                forall|s: &str| parse.requires((s,)),
                any == (k > 0),
                taken.len() == k,
                self@ == before.list_state(short, long@, k),
                before.list_all(short, long@, required, 0) == ({
                    let (s, rest, e) = self@.list_all(short, long@, required, k);
                    (s, taken + rest, e)
                }),
                pushed(parse, taken, k as int, old(into)@, into@),
            decreases self@.potential(),
        {
            let ghost cur = self@;
            let ghost items = into@;
            proof {
                lemma_match_lowers_potential(cur, short, long@, true);
                assert(taken + Seq::<Seq<char>>::empty() =~= taken);
            }
            let found = match self.find_match(short, long, true) {
                Ok(Some(m)) => m,
                Ok(None) => {
                    if required && !any {
                        let e = Error::MissingArgument(option_label(short, long));
                        self.record(&e);
                        return Err(e);
                    }
                    return Ok(self);
                },
                Err(e) => {
                    self.record(&e);
                    return Err(e);
                },
            };
            let raw = match self.take_value(&found, short, long) {
                Ok(v) => v,
                Err(e) => {
                    self.record(&e);
                    return Err(e);
                },
            };
            proof {
                let (s, rest, e) = self@.list_all(short, long@, required, k + 1);
                assert(cur.list_all(short, long@, required, k) == (s, seq![raw@] + rest, e));
                assert(taken + (seq![raw@] + rest) =~= taken.push(raw@) + rest);
                assert((taken + (seq![raw@] + rest))[k as int] == raw@);
                assert forall|j: int| 0 <= j < k implies (taken + (seq![raw@] + rest))[j]
                    == taken[j] by {}
            }
            match parse(raw.as_str()) {
                Ok(v) => {
                    proof {
                        lemma_pushed_one_more(
                            parse,
                            taken,
                            taken.push(raw@),
                            k as int,
                            old(into)@,
                            items,
                            v,
                        );
                    }
                    into.push(v);
                },
                Err(m) => {
                    let e = Error::ConstructionError(short, long, m);
                    self.record(&e);
                    proof {
                        let raws = before.list_all(short, long@, required, 0).1;
                        lemma_pushed_of_a_prefix(parse, taken, raws, k as int, old(into)@, into@);
                        assert(converts(parse, raws[k as int], Err(m)));
                    }
                    return Err(e);
                },
            }
            proof {
                taken = taken.push(raw@);
                k = k + 1;
            }
            any = true;
        }
    }

    /// A list without a long name.
    pub fn short_list<T, F: Fn(&str) -> Result<T, String>>(
        &mut self,
        short: char,
        desc: &'static str,
        into: &mut Vec<T>,
        label: Option<&'static str>,
        required: bool,
        parse: F,
    ) -> (r: Result<&mut Parser, Error>)
        requires
            old(self).wf(),
            forall|s: &str| parse.requires((s,)),
        ensures
            r matches Ok(p) ==> *final(p) == *final(self),
            list_post(
                old(self)@,
                match r {
                    Ok(p) => *p,
                    Err(_) => *final(self),
                },
                match r {
                    Ok(_) => None,
                    Err(e) => Some(e),
                },
                old(into)@,
                final(into)@,
                short,
                ""@,
                desc@,
                text_of(label),
                required,
                parse,
            ),
    {
        self.list(short, "", desc, into, label, required, parse)
    }

    /// A list without a short code.
    pub fn long_list<T, F: Fn(&str) -> Result<T, String>>(
        &mut self,
        long: &'static str,
        desc: &'static str,
        into: &mut Vec<T>,
        label: Option<&'static str>,
        required: bool,
        parse: F,
    ) -> (r: Result<&mut Parser, Error>)
        requires
            old(self).wf(),
            forall|s: &str| parse.requires((s,)),
        ensures
            r matches Ok(p) ==> *final(p) == *final(self),
            list_post(
                old(self)@,
                match r {
                    Ok(p) => *p,
                    Err(_) => *final(self),
                },
                match r {
                    Ok(_) => None,
                    Err(e) => Some(e),
                },
                old(into)@,
                final(into)@,
                '\0',
                long@,
                desc@,
                text_of(label),
                required,
                parse,
            ),
    {
        self.list('\0', long, desc, into, label, required, parse)
    }

    /// Declares the variadic positional, which collects every token that
    /// nothing has claimed and every token behind `--`. `parse` turns each
    /// into an item that is appended to `into`. It can be declared once.
    pub fn positional_list<T, F: Fn(&str) -> Result<T, String>>(
        &mut self,
        name: &'static str,
        desc: &'static str,
        into: &mut Vec<T>,
        required: bool,
        parse: F,
    ) -> (r: Result<&mut Parser, Error>)
        requires
            old(self).wf(),
            forall|s: &str| parse.requires((s,)),
        ensures
            r matches Ok(p) ==> *final(p) == *final(self),
            positional_list_post(
                old(self)@,
                match r {
                    Ok(p) => *p,
                    Err(_) => *final(self),
                },
                match r {
                    Ok(_) => None,
                    Err(e) => Some(e),
                },
                old(into)@,
                final(into)@,
                name@,
                desc@,
                required,
                parse,
            ),
    {
        if let Some(e) = &self.failure {
            return Err(e.duplicate());
        }
        if self.should_ignore(false) {
            return Ok(self);
        }
        if self.has_variadic {
            let e = Error::MultipleVariadic(name);
            self.record(&e);
            return Err(e);
        }
        let ghost before = self@;
        self.has_variadic = true;
        proof {
            crate::lemmas::lemma_same_offer(before, self@);
        }
        let ghost declared = self@;
        if self.help {
            proof {
                if self@.group is Some && self@.schema.has_group(self@.group->0) {
                    lemma_groups_stay(self@.schema, self@.group->0);
                }
            }
            let _ = self.printer.add_positional(Positional::new(name, desc, None, required, true));
            proof {
                crate::lemmas::lemma_same_offer(before, self@);
            }
            return Ok(self);
        }
        let idxs = bits_ascending(&self.mask);
        let ghost order = before.unclaimed_order();
        let ghost raws = before.variadic_raws();
        let ghost base = into@;
        let ghost toks = before.tokens;
        proof {
            lemma_listing(idxs@, before.unclaimed, before.tokens.len() as int);
            assert(into@.take(base.len() as int) =~= base);
            assert(raws.len() == order.len() + before.trailing().len());
        }
        // every position to collect: the unclaimed ones, then those behind
        // the stop
        let mut all: Vec<usize> = Vec::new();
        let mut j: usize = 0;
        while j < idxs.len()
            invariant
                j <= idxs.len(),
                all@ == idxs@.take(j as int),
            decreases idxs.len() - j,
        {
            all.push(idxs[j]);
            j = j + 1;
            assert(all@ =~= idxs@.take(j as int));
        }
        assert(all@ =~= idxs@);
        match self.argstop {
            Some(stop) => {
                assert(stop < self.args.len());
                let mut i: usize = stop + 1;
                while i < self.args.len()
                    invariant
                        stop + 1 <= i <= self.args.len(),
                        all@.len() == idxs@.len() + (i - (stop + 1)),
                        all@.take(idxs@.len() as int) == idxs@,
                        forall|q: int|
                            idxs@.len() <= q < all@.len() ==> #[trigger] all@[q] == stop + 1 + (q
                                - idxs@.len()),
                    decreases self.args.len() - i,
                {
                    let ghost prior = all@;
                    all.push(i);
                    i = i + 1;
                    assert(all@.take(idxs@.len() as int) =~= prior.take(idxs@.len() as int));
                }
            },
            None => {
                assert(all@.take(idxs@.len() as int) =~= idxs@);
            },
        }
        proof {
            assert(all@.len() == raws.len());
            assert forall|q: int| 0 <= q < all@.len() implies 0 <= #[trigger] all@[q] < toks.len()
                && raws[q] == toks[all@[q] as int] by {
                if q < idxs@.len() {
                    assert(all@[q] == all@.take(idxs@.len() as int)[q]);
                    assert(before.unclaimed.contains(idxs@[q] as int));
                }
            }
        }
        let mut k: usize = 0;
        let mut failed: Option<String> = None;
        while k < all.len() && failed.is_none()
            invariant
                k <= all.len(),
                toks == self@.tokens,
                all@.len() == raws.len(),
                forall|q: int|
                    0 <= q < all@.len() ==> 0 <= #[trigger] all@[q] < toks.len() && raws[q]
                        == toks[all@[q] as int],
                forall|s: &str| parse.requires((s,)),
                pushed(parse, raws, k as int, base, into@),
                failed matches Some(m) ==> k < all.len() && converts(parse, raws[k as int], Err(m)),
            decreases
                    all.len() - k + (if failed is None {
                        1int
                    } else {
                        0int
                    }),
        {
            let i = all[k];
            let ghost items = into@;
            assert(i < self.args.len());
            match parse(self.args[i].as_str()) {
                Ok(v) => {
                    proof {
                        lemma_pushed_one_more(parse, raws, raws, k as int, base, items, v);
                    }
                    into.push(v);
                    k = k + 1;
                },
                Err(m) => {
                    failed = Some(m);
                },
            }
        }
        if failed.is_some() && k < idxs.len() {
            let e = Error::PositionalConstructionError(name, failed.unwrap());
            self.record(&e);
            return Err(e);
        }
        let mut j: usize = 0;
        while j < idxs.len()
            invariant
                j <= idxs.len(),
                lists(idxs@, before.unclaimed),
                self@ == (State { unclaimed: self@.unclaimed, ..declared }),
                forall|v: int|
                    self@.unclaimed.contains(v) <==> before.unclaimed.contains(v) && !exists|
                        a: int,
                    |
                        0 <= a < j && idxs@[a] as int == v,
            decreases idxs.len() - j,
        {
            let ghost held = self@.unclaimed;
            bits_remove(&mut self.mask, idxs[j]);
            j = j + 1;
            assert forall|v: int|
                self@.unclaimed.contains(v) <==> before.unclaimed.contains(v) && !exists|a: int|
                    0 <= a < j && idxs@[a] as int == v by {
                if held.contains(v) && v != idxs@[j - 1] as int {
                    if exists|a: int| 0 <= a < j && idxs@[a] as int == v {
                        let a = choose|a: int| 0 <= a < j && idxs@[a] as int == v;
                        assert(a < j - 1);
                    }
                }
            }
        }
        let ghost emptied = State { unclaimed: Set::empty(), ..declared };
        proof {
            assert forall|v: int| !self@.unclaimed.contains(v) by {
                if self@.unclaimed.contains(v) {
                    assert(before.unclaimed.contains(v));
                    let a = choose|a: int| 0 <= a < idxs@.len() && idxs@[a] as int == v;
                    assert(0 <= a < j && idxs@[a] as int == v);
                }
            }
            assert(self@.unclaimed =~= Set::<int>::empty());
            assert(self@ == emptied);
            assert(emptied.wf()) by {
                assert forall|i: int| #[trigger] emptied.runs.contains_key(i) implies emptied.run_ok(
                    i,
                ) by {
                    assert(declared.run_ok(i));
                }
            }
        }
        match failed {
            Some(m) => {
                let e = Error::PositionalConstructionError(name, m);
                self.record(&e);
                return Err(e);
            },
            None => {},
        }
        if required && all.len() == 0 {
            assert(into@ =~= into@.take(base.len() as int));
            let mut label = name.to_owned();
            label.append("...");
            let e = Error::MissingPositional(label);
            self.record(&e);
            Err(e)
        } else {
            Ok(self)
        }
    }

    /// The report of every token that nothing has claimed, in the order of
    /// the tokens. Of a token that was taken as a cluster of short codes,
    /// each character that is still open is reported as a short option of
    /// its own, behind a dash.
    pub fn unused(&self) -> (r: Vec<Unused>)
        requires
            self.wf(),
        ensures
            views(r@) == self@.report(),
    {
        let ghost st = self@;
        let ghost entry = |i: int| st.entries(i);
        let idxs = bits_ascending(&self.mask);
        let ghost order = ints(idxs@);
        proof {
            lemma_listing(idxs@, st.unclaimed, st.tokens.len() as int);
        }
        let mut out: Vec<Unused> = Vec::new();
        let mut k: usize = 0;
        assert(order.take(0) =~= Seq::<int>::empty());
        assert(views(out@) =~= Seq::<UnusedView>::empty());
        while k < idxs.len()
            invariant
                k <= idxs.len(),
                self.wf(),
                st == self@,
                entry == |i: int| st.entries(i),
                order == ints(idxs@),
                lists(idxs@, st.unclaimed),
                views(out@) == gathered(order.take(k as int), entry),
            decreases idxs.len() - k,
        {
            let i = idxs[k];
            let ghost sofar = views(out@);
            proof {
                assert(st.unclaimed.contains(idxs@[k as int] as int));
                assert(order.take(k + 1).drop_last() =~= order.take(k as int));
                assert(order.take(k + 1).last() == i as int);
            }
            assert(i < self.args.len());
            match self.run_masks.get(&i) {
                None => {
                    out.push(Unused::new(self.args[i].clone()));
                    assert(views(out@) =~= sofar + entry(i as int));
                },
                Some(bits) => {
                    let t = chars_of(self.args[i].as_str());
                    let offs = bits_ascending(bits);
                    let ghost open = st.runs[i as int];
                    let ghost offsets = ints(offs@);
                    proof {
                        assert(self.run_masks@.contains_key(i));
                        assert(st.runs.contains_key(i as int));
                        assert(st.run_ok(i as int));
                        assert(open == members(*bits));
                        lemma_listing(offs@, open, t@.len() as int);
                        assert(offsets.take(0) =~= Seq::<int>::empty());
                        assert(sofar + offsets.take(0).map_values(|k: int| offset_entry(t@, k))
                            =~= sofar);
                    }
                    let mut m: usize = 0;
                    while m < offs.len()
                        invariant
                            m <= offs.len(),
                            offsets == ints(offs@),
                            lists(offs@, open),
                            open.subset_of(set_int_range(1, t@.len() as int)),
                            views(out@) == sofar + offsets.take(m as int).map_values(
                                |k: int| offset_entry(t@, k),
                            ),
                        decreases offs.len() - m,
                    {
                        let off = offs[m];
                        assert(open.contains(offs@[m as int] as int));
                        let ghost inner = views(out@);
                        let mut s = String::new();
                        string_push(&mut s, '-');
                        string_push(&mut s, t[off]);
                        assert(s@ =~= seq!['-', t@[off as int]]);
                        let item = Unused { arg: s, looks_like: LooksLike::ShortArg };
                        assert(item@ == offset_entry(t@, off as int));
                        out.push(item);
                        m = m + 1;
                        proof {
                            let f = |k: int| offset_entry(t@, k);
                            assert(views(out@) =~= inner.push(offset_entry(t@, off as int)));
                            assert(offsets.take(m as int) =~= offsets.take(m - 1).push(off as int));
                            assert(offsets.take(m as int).map_values(f) =~= offsets.take(
                                m - 1,
                            ).map_values(f).push(f(off as int)));
                        }
                        assert(views(out@) =~= sofar + offsets.take(m as int).map_values(
                            |k: int| offset_entry(t@, k),
                        ));
                    }
                    assert(offsets.take(offs.len() as int) =~= offsets);
                },
            }
            k = k + 1;
        }
        assert(order.take(idxs.len() as int) =~= order);
        out
    }

    /// Sets the name of the application for the first line of the help.
    pub fn app_name(&mut self, name: &'static str) -> (r: &mut Parser)
        requires
            old(self).wf(),
        ensures
            *final(r) == *final(self),
            r.lands(
                old(self)@.with_schema(
                    Schema {
                        app: AppView { name: name@, ..old(self)@.schema.app },
                        ..old(self)@.schema
                    },
                ),
            ),
    {
        self.printer.set_name(name);
        proof {
            crate::lemmas::lemma_same_offer(old(self)@, self@);
        }
        self
    }

    /// Sets the short description for the first line of the help.
    pub fn app_desc(&mut self, desc: &'static str) -> (r: &mut Parser)
        requires
            old(self).wf(),
        ensures
            *final(r) == *final(self),
            r.lands(
                old(self)@.with_schema(
                    Schema {
                        app: AppView { short_desc: desc@, ..old(self)@.schema.app },
                        ..old(self)@.schema
                    },
                ),
            ),
    {
        self.printer.set_short_desc(desc);
        proof {
            crate::lemmas::lemma_same_offer(old(self)@, self@);
        }
        self
    }

    /// Sets the long description, which the help shows below the usage.
    pub fn app_long_desc(&mut self, desc: &'static str) -> (r: &mut Parser)
        requires
            old(self).wf(),
        ensures
            *final(r) == *final(self),
            r.lands(
                old(self)@.with_schema(
                    Schema {
                        app: AppView { long_desc: desc@, ..old(self)@.schema.app },
                        ..old(self)@.schema
                    },
                ),
            ),
    {
        self.printer.set_long_desc(desc);
        proof {
            crate::lemmas::lemma_same_offer(old(self)@, self@);
        }
        self
    }

    /// Sets the version for the first line of the help.
    pub fn app_version(&mut self, vers: &'static str) -> (r: &mut Parser)
        requires
            old(self).wf(),
        ensures
            *final(r) == *final(self),
            r.lands(
                old(self)@.with_schema(
                    Schema {
                        app: AppView { version: vers@, ..old(self)@.schema.app },
                        ..old(self)@.schema
                    },
                ),
            ),
    {
        self.printer.set_version(vers);
        proof {
            crate::lemmas::lemma_same_offer(old(self)@, self@);
        }
        self
    }

    /// How deep the declaration that is read lies below the top level.
    pub fn depth(&self) -> (r: usize)
        ensures
            r == self@.walk_depth,
    {
        self.walk_depth
    }

    /// A flag without a long name.
    pub fn short_flag(&mut self, short: char, desc: &'static str, into: &mut bool, invert: bool) -> (r:
        Result<&mut Parser, Error>)
        requires
            old(self).wf(),
        ensures
            r matches Ok(p) ==> *final(p) == *final(self),
            flag_post(
                old(self)@,
                match r {
                    Ok(p) => *p,
                    Err(_) => *final(self),
                },
                match r {
                    Ok(_) => None,
                    Err(e) => Some(e),
                },
                *old(into),
                *final(into),
                short,
                ""@,
                desc@,
                invert,
            ),
    {
        self.flag(short, "", desc, into, invert)
    }

    /// A flag without a short code.
    pub fn long_flag(
        &mut self,
        long: &'static str,
        desc: &'static str,
        into: &mut bool,
        invert: bool,
    ) -> (r: Result<&mut Parser, Error>)
        requires
            old(self).wf(),
        ensures
            r matches Ok(p) ==> *final(p) == *final(self),
            flag_post(
                old(self)@,
                match r {
                    Ok(p) => *p,
                    Err(_) => *final(self),
                },
                match r {
                    Ok(_) => None,
                    Err(e) => Some(e),
                },
                *old(into),
                *final(into),
                '\0',
                long@,
                desc@,
                invert,
            ),
    {
        self.flag('\0', long, desc, into, invert)
    }

    /// The help for what was declared while help was wanted, as one text.
    pub fn help_text(&self) -> (r: String)
        ensures
            r@ == self@.schema.help_text(),
    {
        self.printer.help_text()
    }

    /// The usage line for what was declared while help was wanted, without
    /// the name of the program.
    pub fn usage(&self) -> (r: String)
        ensures
            r@ == self@.schema.usage_text(),
    {
        self.printer.generate_usage()
    }
}

} // verus!
