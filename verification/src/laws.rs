//! What holds of every parse: laws over the states and steps of the model.

use vstd::prelude::*;
use crate::errors::ErrorView;
use crate::found::{Found, Place};
use crate::lemmas::{
    engine_step, lemma_claim, lemma_match_lowers_potential, lemma_same_offer, lemma_scan,
};
use crate::errors::Error;
use crate::model::{ascending, buried, cluster_shaped, dashes, State};
use crate::contracts::{
    arg_post, count_post, list_post, positional_list_post, positional_post, subcommand_post,
};
use crate::parser::Parser;
use crate::printer::{lemma_group_added, lemma_groups_stay, lemma_registering_keeps_order};
use crate::unused::{gathered, looks, UnusedView};

verus! {

/// A state follows itself, and what follows a follower follows.
pub proof fn lemma_order_of_states(a: State, b: State, c: State)
    ensures
        a.precedes(a),
        a.precedes(b) && b.precedes(c) ==> a.precedes(c),
{
    if a.precedes(b) && b.precedes(c) {
        assert forall|i: int| 0 <= i < a.tokens.len() implies (#[trigger] c.open_offsets(
            i,
        )).subset_of(a.open_offsets(i)) by {
            assert(c.open_offsets(i).subset_of(b.open_offsets(i)));
            assert(b.open_offsets(i).subset_of(a.open_offsets(i)));
        }
    }
}

/// A change of the scope, the schema or the failure alone keeps a state
/// well formed where the open group stays registered, and is a step in the
/// order of states where nothing final is taken back.
proof fn lemma_outer_change(a: State, b: State)
    requires
        a.wf(),
        b.tokens == a.tokens,
        b.stop == a.stop,
        b.unclaimed == a.unclaimed,
        b.runs == a.runs,
        b.help == a.help,
    ensures
        b.commit_depth == b.max_depth && (b.walk_depth < b.commit_depth ==> b.parse_done) && (
        b.help && b.group is Some ==> b.schema.has_group(b.group->0)) && b.schema.wf()
            ==> b.wf(),
        (a.parse_done ==> b.parse_done) && a.max_depth <= b.max_depth && (a.variadic
            ==> b.variadic) && (a.failure is Some ==> b.failure == a.failure) ==> a.precedes(b),
{
    lemma_same_offer(a, b);
    assert forall|i: int| #[trigger] b.runs.contains_key(i) implies b.run_ok(i) by {
        assert(a.run_ok(i));
    }
}

/// The search for a match is a step in the order of states: the state stays well
/// formed, no claimed token is offered again and no cluster state is
/// forgotten; and the scope, the schema and the failure are not touched. A
/// search that finds nothing, or fails, changes nothing.
pub proof fn lemma_find_match_is_a_step(st: State, c: char, name: Seq<char>, expect_value: bool)
    requires
        st.wf(),
    ensures
        st.find_match(c, name, expect_value).0.wf(),
        st.precedes(st.find_match(c, name, expect_value).0),
        engine_step(
            st,
            st.find_match(c, name, expect_value).0,
            st.find_match(c, name, expect_value).1,
            0,
        ),
        !(st.find_match(c, name, expect_value).1 matches Ok(Some(_))) ==> st.find_match(
            c,
            name,
            expect_value,
        ).0 == st,
{
    lemma_scan(st, c, name, expect_value, 0);
}

/// A flag is a step in the order of states.
pub proof fn lemma_flag_is_a_step(
    st: State,
    c: char,
    name: Seq<char>,
    desc: Seq<char>,
    current: bool,
    invert: bool,
)
    requires
        st.wf(),
    ensures
        st.flag(c, name, desc, current, invert).0.wf(),
        st.precedes(st.flag(c, name, desc, current, invert).0),
{
    let (s_end, r) = st.flag(c, name, desc, current, invert);
    lemma_order_of_states(st, st, st);
    if st.failure is None && st.live(false) {
        let s0 = if st.help {
            st.register_arg(
                crate::printer::ArgumentView {
                    short: c,
                    long: name,
                    desc,
                    label: None,
                    default: Some(crate::declare::flag_text(current)),
                    required: false,
                },
            )
        } else {
            st
        };
        if st.help && st.group is Some {
            lemma_groups_stay(st.schema, st.group->0);
        }
        lemma_registering_keeps_order(st.schema);
        lemma_outer_change(st, s0);
        if !(st.help && !crate::declare::is_help_flag(c, name)) {
            let (s1, r1) = s0.find_match(c, name, false);
            lemma_scan(s0, c, name, false, 0);
            lemma_order_of_states(st, s0, s1);
            match r1 {
                Ok(Some(m)) => {
                    lemma_claim(s1, m.index);
                    lemma_order_of_states(s1, s1, s1);
                    lemma_order_of_states(st, s1, s1.claim_match(m));
                    lemma_outer_change(s1.claim_match(m), s_end);
                    lemma_order_of_states(st, s1.claim_match(m), s_end);
                },
                _ => {
                    lemma_outer_change(s1, s_end);
                    lemma_order_of_states(st, s1, s_end);
                },
            }
        }
    }
}

/// The end of a scope is a step in the order of states.
pub proof fn lemma_done_is_a_step(st: State)
    requires
        st.wf(),
    ensures
        st.done().0.wf(),
        st.precedes(st.done().0),
{
    lemma_outer_change(st, st.done().0);
}

/// The start of a group is a step in the order of states.
pub proof fn lemma_group_is_a_step(st: State, name: Seq<char>, desc: Seq<char>)
    requires
        st.wf(),
    ensures
        st.group(name, desc).0.wf(),
        st.precedes(st.group(name, desc).0),
{
    lemma_group_added(st.schema, name, desc);
    lemma_registering_keeps_order(st.schema);
    lemma_outer_change(st, st.group(name, desc).0);
}

/// `next` differs from `st` at most in what is claimed: in the mask and in
/// the cluster states.
pub open spec fn only_claims(st: State, next: State) -> bool {
    next == (State { runs: next.runs, unclaimed: next.unclaimed, ..st })
}

/// Fetching the value of a match is a step in the order of states.
pub proof fn lemma_take_value_is_a_step(st: State, m: Found, c: char, name: Seq<char>)
    requires
        st.wf(),
    ensures
        st.take_value(m, c, name).0.wf(),
        st.precedes(st.take_value(m, c, name).0),
        only_claims(st, st.take_value(m, c, name).0),
{
    let s1 = st.claim(m.index);
    lemma_claim(st, m.index);
    lemma_claim(s1, m.index + 1);
    lemma_order_of_states(st, s1, s1.claim(m.index + 1));
}

/// Matching an option with a value is a step in the order of states.
pub proof fn lemma_arg_bind_is_a_step(st: State, c: char, name: Seq<char>, required: bool)
    requires
        st.wf(),
    ensures
        st.arg_bind(c, name, required).0.wf(),
        st.precedes(st.arg_bind(c, name, required).0),
        only_claims(st, st.arg_bind(c, name, required).0),
{
    let (s1, r) = st.find_match(c, name, true);
    lemma_scan(st, c, name, true, 0);
    match r {
        Ok(Some(m)) => {
            lemma_take_value_is_a_step(s1, m, c, name);
            lemma_order_of_states(st, s1, s1.take_value(m, c, name).0);
        },
        _ => {},
    }
}

/// Reading a subcommand, and committing to it, are steps in the order of
/// states.
pub proof fn lemma_subcommand_is_a_step(
    st: State,
    name: Seq<char>,
    desc: Seq<char>,
    long_desc: Seq<char>,
)
    requires
        st.wf(),
    ensures
        st.subcommand_probe(name, desc).0.wf(),
        st.precedes(st.subcommand_probe(name, desc).0),
        st.subcommand_probe(name, desc).1 matches Ok(Some(i)) ==> {
            &&& st.unclaimed.contains(i)
            &&& st.tokens[i] == name
            &&& st.subcommand_probe(name, desc).0.commit(name, desc, long_desc).wf()
            &&& st.precedes(st.subcommand_probe(name, desc).0.commit(name, desc, long_desc))
        },
{
    let s0 = st.enter();
    lemma_outer_change(st, s0);
    let (s2, out) = st.subcommand_probe(name, desc);
    if s0.live(true) {
        let s1 = if s0.help {
            s0.with_schema(
                s0.schema.add_subcommand(crate::printer::SubcommandView { name, desc }),
            )
        } else {
            s0
        };
        if s0.help && s0.group is Some {
            lemma_groups_stay(s0.schema, s0.group->0);
        }
        lemma_registering_keeps_order(s0.schema);
        lemma_outer_change(s0, s1);
        lemma_order_of_states(st, s0, s1);
        match out {
            Ok(Some(i)) => {
                crate::lemmas::lemma_lowest_is_member(s1.reading(name));
                lemma_claim(s1, i);
                lemma_order_of_states(st, s1, s2);
                let s3 = s2.commit(name, desc, long_desc);
                if s2.help && s2.group is Some {
                    lemma_groups_stay(s2.schema, s2.group->0);
                }
                lemma_registering_keeps_order(s2.schema);
                lemma_outer_change(s2, s3);
                lemma_order_of_states(st, s2, s3);
            },
            _ => {},
        }
    }
}

/// Counting an option is a step in the order of states.
pub proof fn lemma_count_is_a_step(st: State, c: char, name: Seq<char>)
    requires
        st.wf(),
    ensures
        st.count_loop(c, name).0.wf(),
        st.precedes(st.count_loop(c, name).0),
        only_claims(st, st.count_loop(c, name).0),
    decreases st.potential(),
{
    let (s1, r) = st.find_match(c, name, false);
    lemma_match_lowers_potential(st, c, name, false);
    match r {
        Ok(Some(m)) => {
            let s2 = if m.run_count == 0 {
                s1.claim(m.index)
            } else {
                s1
            };
            lemma_claim(s1, m.index);
            lemma_order_of_states(st, s1, s2);
            if m.place is Absent {
                lemma_count_is_a_step(s2, c, name);
                lemma_order_of_states(st, s2, s2.count_loop(c, name).0);
            }
        },
        _ => {},
    }
}

/// Collecting the values of a list is a step in the order of states, and so
/// is every part of it.
pub proof fn lemma_list_is_a_step(st: State, c: char, name: Seq<char>, required: bool, seen: nat)
    requires
        st.wf(),
    ensures
        st.list_all(c, name, required, seen).0.wf(),
        st.precedes(st.list_all(c, name, required, seen).0),
        only_claims(st, st.list_all(c, name, required, seen).0),
    decreases st.potential(),
{
    let (s1, r) = st.arg_bind(c, name, false);
    lemma_arg_bind_is_a_step(st, c, name, false);
    lemma_match_lowers_potential(st, c, name, true);
    match r {
        Ok(Some(raw)) => {
            lemma_list_is_a_step(s1, c, name, required, seen + 1);
            lemma_order_of_states(st, s1, s1.list_all(c, name, required, seen + 1).0);
        },
        _ => {},
    }
}

/// The state of a list after any number of its values follows the state
/// in which the list started.
pub proof fn lemma_list_state_is_a_step(st: State, c: char, name: Seq<char>, k: nat)
    requires
        st.wf(),
    ensures
        st.list_state(c, name, k).wf(),
        st.precedes(st.list_state(c, name, k)),
        only_claims(st, st.list_state(c, name, k)),
    decreases k,
{
    if k > 0 {
        let s = st.list_state(c, name, (k - 1) as nat);
        lemma_list_state_is_a_step(st, c, name, (k - 1) as nat);
        lemma_arg_bind_is_a_step(s, c, name, false);
        lemma_order_of_states(st, s, s.arg_bind(c, name, false).0);
    } else {
        lemma_order_of_states(st, st, st);
    }
}

/// The members of a set below a bound, in ascending order, are just those
/// members, each once.
pub proof fn lemma_ascending_is_exact(s: Set<int>, below: int)
    ensures
        forall|k: int|
            0 <= k < ascending(s, below).len() ==> s.contains(#[trigger] ascending(s, below)[k])
                && 0 <= ascending(s, below)[k] < below,
        forall|a: int, b: int|
            0 <= a < b < ascending(s, below).len() ==> ascending(s, below)[a] < ascending(
                s,
                below,
            )[b],
        forall|v: int| s.contains(v) && 0 <= v < below ==> ascending(s, below).contains(v),
    decreases below,
{
    if below > 0 {
        lemma_ascending_is_exact(s, below - 1);
        let shorter = ascending(s, below - 1);
        let whole = ascending(s, below);
        assert forall|v: int| s.contains(v) && 0 <= v < below implies whole.contains(v) by {
            if v < below - 1 {
                let k = choose|k: int| 0 <= k < shorter.len() && shorter[k] == v;
                assert(whole[k] == v);
            } else {
                assert(whole[whole.len() - 1] == v);
            }
        }
    }
}

/// What is gathered along two orders, one behind the other, is what is
/// gathered along each, one behind the other.
pub proof fn lemma_gathered_in_parts(
    a: Seq<int>,
    b: Seq<int>,
    entry: spec_fn(int) -> Seq<UnusedView>,
)
    ensures
        gathered(a + b, entry) == gathered(a, entry) + gathered(b, entry),
    decreases b.len(),
{
    if b.len() == 0 {
        assert(a + b =~= a);
        assert(gathered(a, entry) + gathered(b, entry) =~= gathered(a, entry));
    } else {
        lemma_gathered_in_parts(a, b.drop_last(), entry);
        assert((a + b).drop_last() =~= a + b.drop_last());
        assert((a + b).last() == b.last());
        assert(gathered(a, entry) + gathered(b, entry) =~= gathered(a, entry) + gathered(
            b.drop_last(),
            entry,
        ) + entry(b.last()));
    }
}

/// Token `i` is the `k`-th of the unclaimed tokens and no other of them,
/// and the report is what the tokens before it give, then what it gives,
/// then what the tokens behind it give.
pub open spec fn reported_at(st: State, i: int, k: int) -> bool {
    let order = st.unclaimed_order();
    let entry = |j: int| st.entries(j);
    &&& 0 <= k < order.len()
    &&& order[k] == i
    &&& !order.take(k).contains(i)
    &&& !order.skip(k + 1).contains(i)
    &&& st.report() == gathered(order.take(k), entry) + st.entries(i) + gathered(
        order.skip(k + 1),
        entry,
    )
}

/// A token that no declaration has touched appears in the report of what
/// was not used exactly once, as itself, and is classified by its first
/// characters: the report is what the tokens before it give, then this
/// one entry, then what the tokens behind it give.
pub proof fn lemma_untouched_token_is_reported_once(st: State, i: int)
    requires
        st.wf(),
        st.unclaimed.contains(i),
        !st.runs.contains_key(i),
    ensures
        st.entries(i) == seq![UnusedView { arg: st.tokens[i], looks_like: looks(st.tokens[i]) }],
        exists|k: int| reported_at(st, i, k),
{
    let order = st.unclaimed_order();
    let entry = |j: int| st.entries(j);
    lemma_ascending_is_exact(st.unclaimed, st.tokens.len() as int);
    assert(order.contains(i));
    let k = choose|k: int| 0 <= k < order.len() && order[k] == i;
    let before = order.take(k);
    let behind = order.skip(k + 1);
    assert(!before.contains(i)) by {
        if before.contains(i) {
            let a = choose|a: int| 0 <= a < before.len() && before[a] == i;
            assert(order[a] < order[k]);
        }
    }
    assert(!behind.contains(i)) by {
        if behind.contains(i) {
            let a = choose|a: int| 0 <= a < behind.len() && behind[a] == i;
            assert(order[k] < order[k + 1 + a]);
        }
    }
    let head = order.take(k + 1);
    let tail = order.skip(k + 1);
    assert(order =~= head + tail);
    lemma_gathered_in_parts(head, tail, entry);
    assert(head.drop_last() =~= order.take(k));
    assert(head.last() == i);
    assert(reported_at(st, i, k));
}

/// A token that was claimed appears nowhere in the report of what was not
/// used.
pub proof fn lemma_claimed_token_is_not_reported(st: State, i: int)
    requires
        !st.unclaimed.contains(i),
    ensures
        !st.unclaimed_order().contains(i),
        st.entries(i) == Seq::<UnusedView>::empty(),
{
    lemma_ascending_is_exact(st.unclaimed, st.tokens.len() as int);
}

/// A cluster is claimed character by character, not as a token: looking
/// for a code without a value in a cluster claims just the open characters
/// that are the code, and counts them. Every other open character stays
/// open for the codes that are looked for later, and the token stays
/// unclaimed as long as one of its characters is open.
pub proof fn lemma_cluster_is_claimed_by_character(st: State, i: int, c: char)
    requires
        st.wf(),
        st.unclaimed.contains(i),
        cluster_shaped(st.tokens[i]),
        c != '\0',
    ensures
        ({
            let (s1, r) = st.short_test(i, c, false);
            let t = st.tokens[i];
            let claimed = st.open_offsets(i).intersect(crate::model::hits(t, c));
            &&& r is Ok
            &&& match r {
                Ok(Some(m)) => m.index == i && m.run_count == claimed.len() && m.run_count > 0
                    && m.place is Absent,
                _ => claimed.len() == 0,
            }
            &&& forall|k: int|
                s1.open_offsets(i).contains(k) <==> st.open_offsets(i).contains(k) && !(0 <= k
                    < t.len() && t[k] == c)
            &&& s1.unclaimed.contains(i) <==> exists|k: int| s1.open_offsets(i).contains(k)
            &&& forall|j: int| j != i ==> s1.unclaimed.contains(j) == st.unclaimed.contains(j)
        }),
{
    let t = st.tokens[i];
    let open = st.open_offsets(i);
    let claimed = open.intersect(crate::model::hits(t, c));
    let rest = open.difference(crate::model::hits(t, c));
    crate::lemmas::lemma_run_lookup(st, i, c, false);
    crate::lemmas::lemma_open_offsets(st, i);
    vstd::set_lib::lemma_len_subset(claimed, open);
    vstd::set_lib::lemma_len_subset(rest, open);
    vstd::set_lib::lemma_set_empty_equivalency_len(claimed);
    vstd::set_lib::lemma_set_empty_equivalency_len(rest);
    assert(st.short_test(i, c, false) == st.run_lookup(i, c, false));
    let (s1, r) = st.run_lookup(i, c, false);
    assert(exists|k: int| open.contains(k)) by {
        if st.runs.contains_key(i) {
            assert(st.run_ok(i));
        } else {
            assert(open.contains(1));
        }
    }
    if !t.contains(c) {
        assert forall|k: int| !claimed.contains(k) by {
            if claimed.contains(k) {
                assert(t[k] == c);
            }
        }
        assert(claimed =~= Set::<int>::empty());
        assert(s1 == st);
        assert forall|k: int| open.contains(k) implies !(0 <= k < t.len() && t[k] == c) by {}
    } else if claimed.len() == 0 {
        assert(s1.open_offsets(i) == open);
        assert forall|k: int| open.contains(k) implies !(0 <= k < t.len() && t[k] == c) by {
            if 0 <= k < t.len() && t[k] == c {
                assert(claimed.contains(k));
            }
        }
    } else {
        assert(s1.open_offsets(i) == rest);
        if rest.len() != 0 {
            assert(rest.contains(rest.choose()));
        }
    }
}

/// A short code that takes a value is legal in a cluster only as its last
/// character. Looking for it in a cluster fails just where the cluster
/// holds it before its last character, and then nothing changes. A cluster
/// that does not hold the code answers nothing and is left as it is, so
/// that the search goes on behind it. As the last character, if still
/// open, the code is found and claimed, and its value is the next token,
/// which is claimed too if it is unclaimed; the other open characters of
/// the cluster stay open.
pub proof fn lemma_valued_code_must_end_its_cluster(st: State, i: int, c: char, name: Seq<char>)
    requires
        st.wf(),
        st.unclaimed.contains(i),
        cluster_shaped(st.tokens[i]),
        c != '\0',
    ensures
        st.short_test(i, c, true).1 is Err <==> buried(st.tokens[i], c),
        buried(st.tokens[i], c) ==> st.short_test(i, c, true) == (
            st,
            Err::<Option<Found>, ErrorView>(ErrorView::ValuedArgInRun(c, st.tokens[i])),
        ),
        !st.tokens[i].contains(c) ==> st.short_test(i, c, true) == (
            st,
            Ok::<Option<Found>, ErrorView>(None),
        ),
        !buried(st.tokens[i], c) && st.tokens[i].last() == c && st.open_offsets(i).contains(
            st.tokens[i].len() - 1,
        ) ==> {
            let (s1, r) = st.short_test(i, c, true);
            &&& r matches Ok(Some(m))
            &&& m.index == i
            &&& m.run_count >= 1
            &&& m.place == Place::Next
            &&& forall|k: int|
                s1.open_offsets(i).contains(k) <==> st.open_offsets(i).contains(k) && !(0 <= k
                    < st.tokens[i].len() && st.tokens[i][k] == c)
            &&& s1.unclaimed.contains(i + 1) ==> s1.take_value(m, c, name) == (
                s1.claim(i + 1),
                Ok::<Seq<char>, ErrorView>(st.tokens[i + 1]),
            )
            &&& !s1.unclaimed.contains(i + 1) ==> s1.take_value(m, c, name) == (
                s1,
                Err::<Seq<char>, ErrorView>(ErrorView::MissingArgValue(c, name)),
            )
        },
{
    let t = st.tokens[i];
    crate::lemmas::lemma_run_lookup(st, i, c, true);
    crate::lemmas::lemma_open_offsets(st, i);
    assert(st.short_test(i, c, true) == st.run_lookup(i, c, true));
    if !t.contains(c) {
        let claimed = st.open_offsets(i).intersect(crate::model::hits(t, c));
        assert forall|v: int| !claimed.contains(v) by {
            if claimed.contains(v) {
                assert(t[v] == c);
            }
        }
        assert(claimed =~= Set::<int>::empty());
        assert(!buried(t, c)) by {
            if buried(t, c) {
                let k = choose|k: int| 1 <= k < t.len() - 1 && t[k] == c;
                assert(t[k] == c);
            }
        }
    }
    if !buried(t, c) && t.last() == c && st.open_offsets(i).contains(t.len() - 1) {
        let last = t.len() - 1;
        assert(t[last] == c);
        assert(t.contains(c));
        let open = st.open_offsets(i);
        let claimed = open.intersect(crate::model::hits(t, c));
        let rest = open.difference(crate::model::hits(t, c));
        assert(claimed.contains(last));
        vstd::set_lib::lemma_len_subset(claimed, open);
        assert(claimed.len() > 0) by {
            if claimed.len() == 0 {
                vstd::set_lib::lemma_set_empty_equivalency_len(claimed);
            }
        }
        let s1 = st.run_lookup(i, c, true).0;
        assert(s1.open_offsets(i) == rest);
    }
}

/// A value written behind `=` and the same value written as the next token
/// are bound alike: for an option given by its long name in the one state
/// as `--name=value` and in the other as `--name` followed by the unclaimed
/// token `value`, the long-form test finds both, and the value that is
/// fetched is `value` in both.
pub proof fn lemma_value_forms_agree(
    a: State,
    b: State,
    i: int,
    c: char,
    name: Seq<char>,
    value: Seq<char>,
)
    requires
        a.wf(),
        b.wf(),
        name.len() > 0,
        a.unclaimed.contains(i),
        b.unclaimed.contains(i),
        b.unclaimed.contains(i + 1),
        a.tokens[i] == dashes() + name + seq!['='] + value,
        b.tokens[i] == dashes() + name,
        b.tokens[i + 1] == value,
    ensures
        a.long_test(i, name, true) matches Some(m) && a.take_value(m, c, name) == (
            a.claim(i),
            Ok::<Seq<char>, ErrorView>(value),
        ),
        b.long_test(i, name, true) matches Some(m) && b.take_value(m, c, name) == (
            b.claim(i).claim(i + 1),
            Ok::<Seq<char>, ErrorView>(value),
        ),
{
    let ta = a.tokens[i];
    let tb = b.tokens[i];
    let end = 2 + name.len() as int;
    assert(ta.subrange(0, 2) =~= dashes());
    assert(ta.subrange(2, end) =~= name);
    assert(ta[end] == '=');
    assert(ta.skip(end + 1) =~= value);
    assert(tb.subrange(0, 2) =~= dashes());
    assert(tb.subrange(2, end) =~= name);
}

/// The same for an option given by its short code: `-c=value` and `-c`
/// followed by the unclaimed token `value` are bound alike.
pub proof fn lemma_short_value_forms_agree(
    a: State,
    b: State,
    i: int,
    c: char,
    name: Seq<char>,
    value: Seq<char>,
)
    requires
        a.wf(),
        b.wf(),
        c != '\0',
        c != '-',
        a.unclaimed.contains(i),
        b.unclaimed.contains(i),
        b.unclaimed.contains(i + 1),
        a.tokens[i] == seq!['-', c, '='] + value,
        b.tokens[i] == seq!['-', c],
        b.tokens[i + 1] == value,
    ensures
        a.short_test(i, c, true).0 == a,
        a.short_test(i, c, true).1 matches Ok(Some(m)) && a.take_value(m, c, name) == (
            a.claim(i),
            Ok::<Seq<char>, ErrorView>(value),
        ),
        b.short_test(i, c, true).0 == b,
        b.short_test(i, c, true).1 matches Ok(Some(m)) && b.take_value(m, c, name) == (
            b.claim(i).claim(i + 1),
            Ok::<Seq<char>, ErrorView>(value),
        ),
{
    let ta = a.tokens[i];
    assert(ta.skip(3) =~= value);
}

/// No token at or behind the token `--` is ever matched as an option or
/// taken as the value of one: what the match engine finds lies before it,
/// and so does a value that is the next token.
pub proof fn lemma_nothing_behind_the_stop_is_matched(
    st: State,
    c: char,
    name: Seq<char>,
    expect_value: bool,
)
    requires
        st.wf(),
    ensures
        st.find_match(c, name, expect_value).1 matches Ok(Some(m)) ==> {
            let s1 = st.find_match(c, name, expect_value).0;
            &&& 1 <= m.index < st.limit()
            &&& st.stop matches Some(stop) ==> m.index < stop
            &&& s1.take_value(m, c, name).1 is Ok && m.place is Next ==> m.index + 1 < st.limit()
        },
        forall|i: int|
            st.stop is Some && st.stop->0 <= i ==> !st.unclaimed.contains(i)
                && !st.find_match(c, name, expect_value).0.unclaimed.contains(i),
{
    lemma_scan(st, c, name, expect_value, 0);
}

/// The variadic positional collects the unclaimed tokens in ascending
/// order and then, in their order, all the tokens behind the token `--`.
/// The token `--` itself is not among them, nor is the program's name.
pub proof fn lemma_variadic_ends_with_what_follows_the_stop(st: State)
    requires
        st.wf(),
    ensures
        ({
            let raws = st.variadic_raws();
            let order = st.unclaimed_order();
            &&& raws.len() == order.len() + st.trailing().len()
            &&& forall|k: int| 0 <= k < order.len() ==> raws[k] == st.tokens[order[k]]
            &&& forall|a: int, b: int| 0 <= a < b < order.len() ==> order[a] < order[b]
            &&& forall|k: int| 0 <= k < order.len() ==> st.unclaimed.contains(order[k])
            &&& forall|v: int| st.unclaimed.contains(v) ==> order.contains(v)
            &&& match st.stop {
                Some(stop) => {
                    &&& forall|k: int| 0 <= k < order.len() ==> 1 <= #[trigger] order[k] < stop
                    &&& st.trailing().len() == st.tokens.len() - stop - 1
                    &&& forall|j: int|
                        0 <= j < st.trailing().len() ==> raws[order.len() + j]
                            == #[trigger] st.trailing()[j] && st.trailing()[j] == st.tokens[stop
                            + 1 + j]
                },
                None => st.trailing().len() == 0,
            }
        }),
{
    lemma_ascending_is_exact(st.unclaimed, st.tokens.len() as int);
}

/// Once the parse is done nothing is read any more.
pub proof fn lemma_done_parse_reads_nothing(st: State)
    requires
        st.parse_done,
    ensures
        !st.live(true),
        !st.live(false),
        st.mode() is Blocked || st.mode() is Inert,
{
}

/// Closing the deepest scope that was committed to ends the parse: no
/// declaration that follows is read, whatever its nesting.
pub proof fn lemma_closing_the_committed_scope_ends_the_parse(st: State)
    requires
        st.wf(),
        st.failure is None,
        st.group is None,
        st.walk_depth > 0,
        st.walk_depth == st.commit_depth,
    ensures
        st.done().1 is Ok,
        st.done().0.parse_done,
        st.done().0.walk_depth == st.walk_depth - 1,
{
}

/// The scope of a subcommand that was not found in the input is not read:
/// where the declaration of a subcommand finds nothing, no option or
/// positional is read until its scope is closed, and a subcommand declared
/// in its scope is not looked for either.
pub proof fn lemma_scope_of_an_absent_subcommand_is_not_read(
    st: State,
    name: Seq<char>,
    desc: Seq<char>,
)
    requires
        st.wf(),
        st.failure is None,
        st.subcommand_probe(name, desc).1 == Ok::<Option<int>, ErrorView>(None),
    ensures
        !st.subcommand_probe(name, desc).0.live(false),
        !st.subcommand_probe(name, desc).0.enter().live(true),
        st.subcommand_probe(name, desc).0.unclaimed == st.unclaimed,
{
}

/// A subcommand that comes behind one that was committed to at its level
/// is not looked for, and its scope is not read.
pub proof fn lemma_sibling_of_a_committed_subcommand_is_not_read(
    st: State,
    name: Seq<char>,
    desc: Seq<char>,
)
    requires
        st.wf(),
        st.failure is None,
        st.walk_depth < st.commit_depth,
    ensures
        st.subcommand_probe(name, desc) == (st.enter(), Ok::<Option<int>, ErrorView>(None)),
        !st.enter().live(false),
{
}

/// After a failure every step returns that failure and changes nothing.
pub proof fn lemma_failure_is_kept(st: State, c: char, name: Seq<char>, desc: Seq<char>)
    requires
        st.failure is Some,
    ensures
        st.mode() is Blocked,
        forall|current: bool, invert: bool| #[trigger]
            st.flag(c, name, desc, current, invert) == (
                st,
                Err::<bool, ErrorView>(st.failure->0),
            ),
        st.done() == (st, Err::<(), ErrorView>(st.failure->0)),
        st.group(name, desc) == (st, Err::<(), ErrorView>(st.failure->0)),
{
}

/// The variadic positional can be declared once: where one declaration of
/// it was read and did not fail, a second one fails as such, and changes
/// neither its target nor anything of the state but the failure.
pub proof fn lemma_second_variadic_fails<T, F: Fn(&str) -> Result<T, String>>(
    before: State,
    first: Parser,
    second: Parser,
    failure: Option<Error>,
    items: Seq<T>,
    collected: Seq<T>,
    after: Seq<T>,
    names: (Seq<char>, Seq<char>),
    descs: (Seq<char>, Seq<char>),
    required: (bool, bool),
    parse: F,
)
    requires
        before.mode() is Schema || before.mode() is Bind,
        positional_list_post(
            before,
            first,
            None,
            items,
            collected,
            names.0,
            descs.0,
            required.0,
            parse,
        ),
        positional_list_post(
            first@,
            second,
            failure,
            collected,
            after,
            names.1,
            descs.1,
            required.1,
            parse,
        ),
    ensures
        failure matches Some(e) && e@ == ErrorView::MultipleVariadic(names.1),
        after == collected,
        second@ == first@.fail(ErrorView::MultipleVariadic(names.1)),
{
}

/// A positional that is declared behind the variadic positional is out of
/// order: where the variadic positional was read and did not fail, the
/// positional fails as such, and changes neither its target nor anything
/// of the state but the failure.
pub proof fn lemma_positional_behind_the_variadic_fails<
    T,
    U: std::fmt::Display,
    F: Fn(&str) -> Result<T, String>,
    G: Fn(&str) -> Result<U, String>,
>(
    before: State,
    first: Parser,
    second: Parser,
    failure: Option<Error>,
    items: (Seq<T>, Seq<T>),
    values: (U, U),
    names: (Seq<char>, Seq<char>),
    descs: (Seq<char>, Seq<char>),
    required: (bool, bool),
    parse: F,
    convert: G,
)
    requires
        before.mode() is Schema || before.mode() is Bind,
        positional_list_post(
            before,
            first,
            None,
            items.0,
            items.1,
            names.0,
            descs.0,
            required.0,
            parse,
        ),
        positional_post(
            first@,
            second,
            failure,
            values.0,
            values.1,
            names.1,
            descs.1,
            required.1,
            convert,
        ),
    ensures
        failure matches Some(e) && e@ == ErrorView::UnorderedPositionals(names.1),
        values.1 == values.0,
        second@ == first@.fail(ErrorView::UnorderedPositionals(names.1)),
{
}

/// However an option with a value ends, the parser it leaves is in a state
/// that follows the one it started in.
pub proof fn lemma_arg_keeps_the_order<T: std::fmt::Display, F: Fn(&str) -> Result<T, String>>(
    before: State,
    after: Parser,
    failure: Option<Error>,
    values: (T, T),
    short: char,
    texts: (Seq<char>, Seq<char>, Option<Seq<char>>),
    required: bool,
    parse: F,
)
    requires
        before.wf(),
        arg_post(
            before,
            after,
            failure,
            values.0,
            values.1,
            short,
            texts.0,
            texts.1,
            texts.2,
            required,
            parse,
        ),
    ensures
        before.precedes(after@),
{
    lemma_order_of_states(before, before, before);
    lemma_arg_bind_is_a_step(before, short, texts.0, required);
    lemma_registering_keeps_order(before.schema);
    let s1 = before.arg_bind(short, texts.0, required).0;
    assert forall|e: ErrorView| s1.failure is None implies #[trigger] s1.precedes(s1.fail(e)) by {
        lemma_outer_change(s1, s1.fail(e));
    }
    assert forall|a: crate::printer::ArgumentView| #[trigger]
        before.precedes(before.register_arg(a)) by {
        lemma_outer_change(before, before.register_arg(a));
    }
    lemma_order_of_states(before, s1, after@);
}

/// However a positional ends, the parser it leaves is in a state that
/// follows the one it started in.
pub proof fn lemma_positional_keeps_the_order<
    T: std::fmt::Display,
    F: Fn(&str) -> Result<T, String>,
>(
    before: State,
    after: Parser,
    failure: Option<Error>,
    values: (T, T),
    name: Seq<char>,
    desc: Seq<char>,
    required: bool,
    parse: F,
)
    requires
        before.wf(),
        positional_post(before, after, failure, values.0, values.1, name, desc, required, parse),
    ensures
        before.precedes(after@),
{
    lemma_order_of_states(before, before, before);
    assert forall|e: ErrorView| before.failure is None implies #[trigger] before.precedes(
        before.fail(e),
    ) by {
        lemma_outer_change(before, before.fail(e));
    }
    assert forall|s: crate::printer::Schema| #[trigger]
        before.precedes(before.with_schema(s)) by {
        lemma_outer_change(before, before.with_schema(s));
    }
    assert forall|i: int| #[trigger] before.precedes(before.claim(i)) by {
        lemma_claim(before, i);
    }
}

/// However a subcommand ends, the parser it leaves is in a state that
/// follows the one it started in.
pub proof fn lemma_subcommand_keeps_the_order<T, F: Fn(&str) -> Result<T, String>>(
    before: State,
    after: Parser,
    failure: Option<Error>,
    paths: (Seq<T>, Seq<T>),
    name: Seq<char>,
    desc: Seq<char>,
    long_desc: Seq<char>,
    parse: F,
)
    requires
        before.wf(),
        subcommand_post(before, after, failure, paths.0, paths.1, name, desc, long_desc, parse),
    ensures
        before.precedes(after@),
{
    lemma_order_of_states(before, before, before);
    lemma_subcommand_is_a_step(before, name, desc, long_desc);
    let s1 = before.subcommand_probe(name, desc).0;
    assert forall|e: ErrorView| s1.failure is None implies #[trigger] s1.precedes(s1.fail(e)) by {
        lemma_outer_change(s1, s1.fail(e));
    }
    lemma_order_of_states(before, s1, after@);
}

/// However a counter ends, the parser it leaves is in a state that follows
/// the one it started in.
pub proof fn lemma_count_keeps_the_order<T: std::fmt::Display, F: Fn(&T, &T) -> T>(
    before: State,
    after: Parser,
    failure: Option<Error>,
    values: (T, T),
    short: char,
    long: Seq<char>,
    desc: Seq<char>,
    step: T,
    advance: F,
)
    requires
        before.wf(),
        count_post(before, after, failure, values.0, values.1, short, long, desc, step, advance),
    ensures
        before.precedes(after@),
{
    lemma_order_of_states(before, before, before);
    lemma_registering_keeps_order(before.schema);
    assert forall|a: crate::printer::ArgumentView| #[trigger]
        before.precedes(before.register_arg(a)) by {
        lemma_outer_change(before, before.register_arg(a));
    }
    if before.mode() is Bind {
        lemma_count_is_a_step(before, short, long);
        let s1 = before.count_loop(short, long).0;
        assert forall|e: ErrorView| s1.failure is None implies #[trigger] s1.precedes(
            s1.fail(e),
        ) by {
            lemma_outer_change(s1, s1.fail(e));
        }
        lemma_order_of_states(before, s1, after@);
    }
}

/// However a list ends, the parser it leaves is in a state that follows the
/// one it started in.
pub proof fn lemma_list_keeps_the_order<T, F: Fn(&str) -> Result<T, String>>(
    before: State,
    after: Parser,
    failure: Option<Error>,
    items: (Seq<T>, Seq<T>),
    short: char,
    texts: (Seq<char>, Seq<char>, Option<Seq<char>>),
    required: bool,
    parse: F,
)
    requires
        before.wf(),
        list_post(
            before,
            after,
            failure,
            items.0,
            items.1,
            short,
            texts.0,
            texts.1,
            texts.2,
            required,
            parse,
        ),
    ensures
        before.precedes(after@),
{
    lemma_order_of_states(before, before, before);
    lemma_registering_keeps_order(before.schema);
    assert forall|a: crate::printer::ArgumentView| #[trigger]
        before.precedes(before.register_arg(a)) by {
        lemma_outer_change(before, before.register_arg(a));
    }
    if before.mode() is Bind {
        lemma_list_is_a_step(before, short, texts.0, required, 0);
        let s1 = before.list_all(short, texts.0, required, 0).0;
        assert forall|e: ErrorView| s1.failure is None implies #[trigger] s1.precedes(
            s1.fail(e),
        ) by {
            lemma_outer_change(s1, s1.fail(e));
        }
        lemma_order_of_states(before, s1, after@);
        assert forall|k: nat, e: ErrorView|
            before.precedes(#[trigger] before.list_state(short, texts.0, k).fail(e)) by {
            let s = before.list_state(short, texts.0, k);
            lemma_list_state_is_a_step(before, short, texts.0, k);
            lemma_outer_change(s, s.fail(e));
            lemma_order_of_states(before, s, s.fail(e));
        }
    }
}

/// However the variadic positional ends, the parser it leaves is in a state
/// that follows the one it started in.
pub proof fn lemma_positional_list_keeps_the_order<T, F: Fn(&str) -> Result<T, String>>(
    before: State,
    after: Parser,
    failure: Option<Error>,
    items: (Seq<T>, Seq<T>),
    name: Seq<char>,
    desc: Seq<char>,
    required: bool,
    parse: F,
)
    requires
        before.wf(),
        positional_list_post(
            before,
            after,
            failure,
            items.0,
            items.1,
            name,
            desc,
            required,
            parse,
        ),
    ensures
        before.precedes(after@),
{
    lemma_order_of_states(before, before, before);
    let declared = State { variadic: true, ..before };
    let emptied = State { unclaimed: Set::empty(), ..declared };
    lemma_outer_change(before, declared);
    lemma_same_offer(before, declared);
    assert(before.precedes(emptied)) by {
        assert forall|i: int| 0 <= i < before.tokens.len() implies (#[trigger] emptied.open_offsets(
            i,
        )).subset_of(before.open_offsets(i)) by {
            assert(emptied.open_offsets(i) == before.open_offsets(i));
        }
    }
    assert forall|e: ErrorView| before.failure is None implies #[trigger] before.precedes(
        before.fail(e),
    ) by {
        lemma_outer_change(before, before.fail(e));
    }
    assert forall|e: ErrorView| before.failure is None implies #[trigger] before.precedes(
        declared.fail(e),
    ) by {}
    assert forall|e: ErrorView| before.failure is None implies #[trigger] before.precedes(
        emptied.fail(e),
    ) by {}
    assert forall|s: crate::printer::Schema| #[trigger]
        before.precedes(declared.with_schema(s)) by {}
}

/// Token `j` matches the option in neither form.
pub open spec fn passes(st: State, j: int, c: char, name: Seq<char>, expect_value: bool) -> bool {
    &&& st.short_test(j, c, expect_value).1 == Ok::<Option<Found>, ErrorView>(None)
    &&& st.long_test(j, name, expect_value) is None
}

/// What token `j` answers to the option: what its short-form test says,
/// unless that finds nothing and its long-form test finds a match.
pub open spec fn answer_at(st: State, j: int, c: char, name: Seq<char>, expect_value: bool)
    -> crate::model::Matched {
    if st.short_test(j, c, expect_value).1 != Ok::<Option<Found>, ErrorView>(None) {
        st.short_test(j, c, expect_value).1
    } else {
        Ok(st.long_test(j, name, expect_value))
    }
}

/// `a` and `b` hold the same tokens and the same mask, and know the same
/// of the clusters from `from` on.
pub open spec fn agree_from(a: State, b: State, from: int) -> bool {
    &&& a.tokens == b.tokens
    &&& a.unclaimed == b.unclaimed
    &&& forall|j: int|
        from <= j ==> (#[trigger] a.runs.contains_key(j) == b.runs.contains_key(j)) && (
        a.runs.contains_key(j) ==> a.runs[j] == b.runs[j])
}

/// What the match engine returns is the answer of the leftmost unclaimed
/// token that does not pass: with `at` that token, every unclaimed token
/// before it passes, and where none is left, every unclaimed token passes.
pub open spec fn leftmost(
    st: State,
    r: crate::model::Matched,
    from: int,
    c: char,
    name: Seq<char>,
    expect_value: bool,
) -> bool {
    if r == Ok::<Option<Found>, ErrorView>(None) {
        forall|j: int|
            from <= j && st.unclaimed.contains(j) ==> #[trigger] passes(
                st,
                j,
                c,
                name,
                expect_value,
            )
    } else {
        exists|at: int|
            {
                &&& from <= at
                &&& st.unclaimed.contains(at)
                &&& r == #[trigger] answer_at(st, at, c, name, expect_value)
                &&& forall|j: int|
                    from <= j < at && st.unclaimed.contains(j) ==> #[trigger] passes(
                        st,
                        j,
                        c,
                        name,
                        expect_value,
                    )
            }
    }
}

proof fn lemma_scan_is_leftmost(
    orig: State,
    st: State,
    c: char,
    name: Seq<char>,
    expect_value: bool,
    from: int,
)
    requires
        orig.wf(),
        st.wf(),
        0 <= from,
        agree_from(orig, st, from),
    ensures
        leftmost(orig, st.scan(c, name, expect_value, from).1, from, c, name, expect_value),
    decreases st.tokens.len() - from,
{
    let r = st.scan(c, name, expect_value, from).1;
    if from >= st.tokens.len() {
        assert forall|j: int| from <= j && orig.unclaimed.contains(j) implies #[trigger] passes(
            orig,
            j,
            c,
            name,
            expect_value,
        ) by {}
    } else if !st.unclaimed.contains(from) {
        lemma_scan_is_leftmost(orig, st, c, name, expect_value, from + 1);
        let r1 = st.scan(c, name, expect_value, from + 1).1;
        assert(r == r1);
        if r1 != Ok::<Option<Found>, ErrorView>(None) {
            let at = choose|at: int|
                {
                    &&& from + 1 <= at
                    &&& orig.unclaimed.contains(at)
                    &&& r1 == #[trigger] answer_at(orig, at, c, name, expect_value)
                    &&& forall|j: int|
                        from + 1 <= j < at && orig.unclaimed.contains(j) ==> #[trigger] passes(
                            orig,
                            j,
                            c,
                            name,
                            expect_value,
                        )
                };
            assert(r == answer_at(orig, at, c, name, expect_value));
        }
    } else {
        let (s1, r0) = st.short_test(from, c, expect_value);
        crate::lemmas::lemma_short_test(st, from, c, expect_value);
        assert(orig.runs.contains_key(from) == st.runs.contains_key(from));
        assert(orig.open_offsets(from) == st.open_offsets(from));
        assert(orig.short_test(from, c, expect_value).1 == r0);
        assert(orig.long_test(from, name, expect_value) == s1.long_test(
            from,
            name,
            expect_value,
        ));
        if r0 != Ok::<Option<Found>, ErrorView>(None) {
            assert(r == answer_at(orig, from, c, name, expect_value));
        } else {
            match s1.long_test(from, name, expect_value) {
                Some(m) => {
                    assert(r == answer_at(orig, from, c, name, expect_value));
                },
                None => {
                    assert(passes(orig, from, c, name, expect_value));
                    assert(agree_from(orig, s1, from + 1)) by {
                        assert forall|j: int| from + 1 <= j implies (
                        #[trigger] orig.runs.contains_key(j) == s1.runs.contains_key(j)) && (
                        orig.runs.contains_key(j) ==> orig.runs[j] == s1.runs[j]) by {
                            assert(st.runs.contains_key(j) == orig.runs.contains_key(j));
                        }
                    }
                    lemma_scan_is_leftmost(orig, s1, c, name, expect_value, from + 1);
                    let r1 = s1.scan(c, name, expect_value, from + 1).1;
                    assert(r == r1);
                    if r1 != Ok::<Option<Found>, ErrorView>(None) {
                        let at = choose|at: int|
                            {
                                &&& from + 1 <= at
                                &&& orig.unclaimed.contains(at)
                                &&& r1 == #[trigger] answer_at(orig, at, c, name, expect_value)
                                &&& forall|j: int|
                                    from + 1 <= j < at && orig.unclaimed.contains(j)
                                        ==> #[trigger] passes(orig, j, c, name, expect_value)
                            };
                        assert(r == answer_at(orig, at, c, name, expect_value));
                        assert forall|j: int|
                            from <= j < at && orig.unclaimed.contains(j) implies #[trigger] passes(
                            orig,
                            j,
                            c,
                            name,
                            expect_value,
                        ) by {}
                    } else {
                        assert forall|j: int|
                            from <= j && orig.unclaimed.contains(j) implies #[trigger] passes(
                            orig,
                            j,
                            c,
                            name,
                            expect_value,
                        ) by {}
                    }
                },
            }
        }
    }
}

/// The leftmost match wins: what the match engine returns for an option is
/// what the first unclaimed token says that does not pass it, in its short
/// form before its long form; the unclaimed tokens before that one all
/// pass; and where the engine finds nothing, every unclaimed token passes.
/// Each token is judged as the state stood before the search.
pub proof fn lemma_leftmost_match_wins(st: State, c: char, name: Seq<char>, expect_value: bool)
    requires
        st.wf(),
    ensures
        leftmost(st, st.find_match(c, name, expect_value).1, 0, c, name, expect_value),
{
    lemma_scan_is_leftmost(st, st, c, name, expect_value, 0);
}

/// The first unclaimed token that reads the name of a subcommand is the
/// one found: it is unclaimed and reads the name, no unclaimed token before
/// it does, and where none is found, no unclaimed token reads the name.
pub proof fn lemma_first_subcommand_token_wins(st: State, name: Seq<char>)
    requires
        st.wf(),
    ensures
        match st.find_subcommand(name) {
            Some(i) => {
                &&& st.unclaimed.contains(i)
                &&& st.tokens[i] == name
                &&& forall|j: int| st.unclaimed.contains(j) && st.tokens[j] == name ==> i <= j
            },
            None => forall|j: int| st.unclaimed.contains(j) ==> st.tokens[j] != name,
        },
{
    let wanted = st.reading(name);
    match st.find_subcommand(name) {
        Some(i) => {
            crate::lemmas::lemma_lowest_is_member(wanted);
            assert(crate::model::is_lowest(wanted, i));
            assert forall|j: int| st.unclaimed.contains(j) && st.tokens[j] == name implies i
                <= j by {
                assert(wanted.contains(j));
            }
        },
        None => {
            assert forall|v: int| wanted.contains(v) implies 0 <= v by {
                assert(st.unclaimed.contains(v));
            }
            assert forall|j: int| st.unclaimed.contains(j) implies st.tokens[j] != name by {
                if st.tokens[j] == name {
                    assert(wanted.contains(j));
                    lemma_least_exists(wanted, j);
                }
            }
        },
    }
}

/// A set of natural numbers that has a member up to `j` has a least member.
pub proof fn lemma_least_exists(s: Set<int>, j: int)
    requires
        s.contains(j),
        forall|v: int| s.contains(v) ==> 0 <= v,
    ensures
        exists|i: int| crate::model::is_lowest(s, i),
    decreases j,
{
    if exists|k: int| s.contains(k) && k < j {
        let k = choose|k: int| s.contains(k) && k < j;
        lemma_least_exists(s, k);
    } else {
        assert(crate::model::is_lowest(s, j));
    }
}

/// An option that expects no value is never found with one in the next
/// token, and looking for it never fails.
pub proof fn lemma_search_without_a_value_never_fails(
    st: State,
    c: char,
    name: Seq<char>,
    from: int,
)
    ensures
        st.scan(c, name, false, from).1 is Ok,
        st.scan(c, name, false, from).1 matches Ok(Some(m)) ==> m.place !is Next,
    decreases st.tokens.len() - from,
{
    if 0 <= from < st.tokens.len() {
        if !st.unclaimed.contains(from) {
            lemma_search_without_a_value_never_fails(st, c, name, from + 1);
        } else {
            let (s1, r) = st.short_test(from, c, false);
            if r == Ok::<Option<Found>, ErrorView>(None) && s1.long_test(from, name, false) is None {
                lemma_search_without_a_value_never_fails(s1, c, name, from + 1);
            }
        }
    }
}

/// The start of a parse: nothing is nested, nothing committed, no group is
/// open, and nothing is registered. The failure, if there is one, is that of
/// a help flag that was given a value, and then help is not wanted.
pub proof fn lemma_start_of_a_parse(tokens: Seq<Seq<char>>)
    ensures
        ({
            let st = State::started(tokens);
            &&& st.wf()
            &&& st.tokens == tokens
            &&& st.stop == crate::model::stop_of(tokens)
            &&& st.walk_depth == 0
            &&& st.commit_depth == 0
            &&& st.max_depth == 0
            &&& !st.parse_done
            &&& st.group is None
            &&& !st.variadic
            &&& st.schema == State::initial(tokens).schema
            &&& State::initial(tokens).precedes(State { help: false, ..st })
            &&& st.failure matches Some(e) ==> !st.help && e == ErrorView::InvalidInput(
                'h',
                "help"@,
                "flag should not have a value"@,
            )
        }),
{
    let init = State::initial(tokens);
    crate::lemmas::lemma_initial_wf(tokens);
    lemma_flag_is_a_step(init, 'h', "help"@, "print this help dialog"@, false, false);
    lemma_scan(init, 'h', "help"@, false, 0);
    lemma_search_without_a_value_never_fails(init, 'h', "help"@, 0);
    let s1 = init.flag('h', "help"@, "print this help dialog"@, false, false).0;
    let st = State::started(tokens);
    assert forall|i: int| #[trigger] st.runs.contains_key(i) implies st.run_ok(i) by {
        assert(s1.run_ok(i));
    }
    assert(s1 == State { help: false, ..st });
}

/// When help is wanted at the start of a parse. The tokens before the stop
/// are searched for the help flag, `-h` or `--help`, from the left. Help is
/// wanted just where the first token that answers to it gives it without a
/// value; where that token gives it a value, the parse starts with this as
/// its failure; and where every token passes, neither is the case and
/// nothing is claimed. What is found is claimed: the token, or in a cluster
/// the characters `h` alone.
pub proof fn lemma_help_at_the_start(tokens: Seq<Seq<char>>)
    ensures
        ({
            let init = State::initial(tokens);
            let (s1, r) = init.find_match('h', "help"@, false);
            let st = State::started(tokens);
            &&& r is Ok
            &&& leftmost(init, r, 0, 'h', "help"@, false)
            &&& st.help <==> (r matches Ok(Some(m)) && m.place is Absent)
            &&& st.failure is Some <==> (r matches Ok(Some(m)) && m.place is Equals)
            &&& match r {
                Ok(Some(m)) => {
                    &&& 1 <= m.index < init.limit()
                    &&& st.unclaimed == s1.claim_match(m).unclaimed
                    &&& forall|j: int|
                        j != m.index ==> st.unclaimed.contains(j) == init.unclaimed.contains(j)
                },
                _ => st.unclaimed == init.unclaimed,
            }
            &&& forall|j: int| st.unclaimed.contains(j) ==> 1 <= j < init.limit()
        }),
{
    let init = State::initial(tokens);
    crate::lemmas::lemma_initial_wf(tokens);
    lemma_scan(init, 'h', "help"@, false, 0);
    lemma_search_without_a_value_never_fails(init, 'h', "help"@, 0);
    lemma_leftmost_match_wins(init, 'h', "help"@, false);
    lemma_start_of_a_parse(tokens);
}

/// What a subcommand does to the scope, in a parse that has not failed.
/// The nesting deepens by one level in any case. Where the declaration is
/// read, which is directly below the committed path, and an unclaimed token
/// reads its name, the first such token is claimed and is the one to be
/// converted; committing then deepens the committed path by one level, to
/// the nesting of the declaration. In every other case nothing is claimed
/// and nothing committed. Whether the parse is done does not change.
pub proof fn lemma_subcommand_moves_the_scope(
    st: State,
    name: Seq<char>,
    desc: Seq<char>,
    long_desc: Seq<char>,
)
    requires
        st.wf(),
        st.failure is None,
        name.len() > 0,
    ensures
        ({
            let (s1, out) = st.subcommand_probe(name, desc);
            let read = !st.parse_done && st.walk_depth == st.commit_depth;
            let hit = exists|j: int| st.unclaimed.contains(j) && st.tokens[j] == name;
            &&& out is Ok
            &&& s1.walk_depth == st.walk_depth + 1
            &&& s1.parse_done == st.parse_done
            &&& s1.commit_depth == st.commit_depth
            &&& s1.max_depth == st.max_depth
            &&& (out matches Ok(Some(i))) <==> read && hit
            &&& match out {
                Ok(Some(i)) => {
                    let s2 = s1.commit(name, desc, long_desc);
                    &&& st.unclaimed.contains(i)
                    &&& st.tokens[i] == name
                    &&& forall|j: int| st.unclaimed.contains(j) && st.tokens[j] == name ==> i <= j
                    &&& s1.unclaimed == st.unclaimed.remove(i)
                    &&& s2.walk_depth == st.walk_depth + 1
                    &&& s2.commit_depth == st.commit_depth + 1
                    &&& s2.max_depth == s2.commit_depth
                    &&& s2.commit_depth == s2.walk_depth
                    &&& s2.parse_done == st.parse_done
                    &&& s2.unclaimed == s1.unclaimed
                },
                _ => s1.unclaimed == st.unclaimed && s1.runs == st.runs,
            }
        }),
{
    let s0 = st.enter();
    lemma_subcommand_is_a_step(st, name, desc, long_desc);
    let s1 = if s0.help && s0.live(true) {
        s0.with_schema(s0.schema.add_subcommand(crate::printer::SubcommandView { name, desc }))
    } else {
        s0
    };
    if s0.live(true) {
        assert(s1.reading(name) =~= st.reading(name));
        assert(s1.wf()) by {
            if s0.group is Some && s0.schema.has_group(s0.group->0) {
                lemma_groups_stay(s0.schema, s0.group->0);
            }
            lemma_registering_keeps_order(s0.schema);
            lemma_outer_change(st, s0);
            lemma_outer_change(s0, s1);
        }
        lemma_first_subcommand_token_wins(s1, name);
        if exists|j: int| st.unclaimed.contains(j) && st.tokens[j] == name {
            let j = choose|j: int| st.unclaimed.contains(j) && st.tokens[j] == name;
            assert(s1.unclaimed.contains(j) && s1.tokens[j] == name);
        }
    }
}

/// A command line that gives an option its value behind `=`.
pub open spec fn line_with_equals(prog: Seq<char>, name: Seq<char>, value: Seq<char>) -> Seq<
    Seq<char>,
> {
    seq![prog, dashes() + name + seq!['='] + value]
}

/// A command line that gives an option its value as the next token.
pub open spec fn line_with_next(prog: Seq<char>, name: Seq<char>, value: Seq<char>) -> Seq<
    Seq<char>,
> {
    seq![prog, dashes() + name, value]
}

/// The stop of a command line whose tokens behind the first do not read
/// `--` is its first token or none.
proof fn lemma_stop_of_a_line(tokens: Seq<Seq<char>>)
    requires
        tokens.len() >= 1,
        forall|j: int| 1 <= j < tokens.len() ==> tokens[j] != dashes(),
    ensures
        crate::model::stop_of(tokens) == if tokens[0] == dashes() {
            Some(0int)
        } else {
            None
        },
{
    if tokens[0] == dashes() {
        assert(crate::model::is_first_stop(tokens, 0));
        let s = choose|s: int| crate::model::is_first_stop(tokens, s);
        assert(s == 0);
    } else {
        assert forall|s: int| !crate::model::is_first_stop(tokens, s) by {}
    }
}

/// `--name=value` and `--name value` bind alike, from the start of a parse
/// on: the two command lines start a parse with the same failure, if any,
/// and without help being wanted; and where they start without a failure,
/// an option with the long name `name`, whatever its short code, is matched
/// in both with the same result, which is the text `value` wherever the
/// program's name does not read `--`.
///
/// Left out are the name `help`, which is the help flag's own; the value
/// `--`, which as a token is the stop; and a value that as a token is
/// itself taken for the help flag.
pub proof fn lemma_value_forms_bind_alike(
    prog: Seq<char>,
    c: char,
    name: Seq<char>,
    value: Seq<char>,
    required: bool,
)
    requires
        name.len() > 0,
        name != "help"@,
        value != dashes(),
        prog != dashes() ==> passes(
            State::initial(line_with_next(prog, name, value)),
            2,
            'h',
            "help"@,
            false,
        ),
    ensures
        ({
            let a = State::started(line_with_equals(prog, name, value));
            let b = State::started(line_with_next(prog, name, value));
            &&& !a.help && !b.help
            &&& a.failure == b.failure
            &&& a.mode() == b.mode()
            &&& a.failure is None ==> a.arg_bind(c, name, required).1 == b.arg_bind(
                c,
                name,
                required,
            ).1
            &&& a.failure is None && prog != dashes() ==> a.arg_bind(c, name, required).1 == Ok::<
                Option<Seq<char>>,
                ErrorView,
            >(Some(value))
        }),
{
    reveal_strlit("help");
    let help = "help"@;
    let ta = line_with_equals(prog, name, value);
    let tb = line_with_next(prog, name, value);
    let wa = ta[1];
    let wb = tb[1];
    let end = 2 + name.len() as int;
    assert(wa.len() == end + 1 + value.len());
    assert(wb.len() == end);
    assert(wa != dashes() && wb != dashes());
    lemma_stop_of_a_line(ta);
    lemma_stop_of_a_line(tb);
    let ia = State::initial(ta);
    let ib = State::initial(tb);
    crate::lemmas::lemma_initial_wf(ta);
    crate::lemmas::lemma_initial_wf(tb);
    lemma_start_of_a_parse(ta);
    lemma_start_of_a_parse(tb);
    let a = State::started(ta);
    let b = State::started(tb);
    reveal_with_fuel(State::scan, 5);
    if prog == dashes() {
        assert(ia.unclaimed =~= Set::<int>::empty());
        assert(ib.unclaimed =~= Set::<int>::empty());
        assert(ia.find_match('h', help, false) == (ia, Ok::<Option<Found>, ErrorView>(None)));
        assert(ib.find_match('h', help, false) == (ib, Ok::<Option<Found>, ErrorView>(None)));
        assert(a.find_match(c, name, true) == (a, Ok::<Option<Found>, ErrorView>(None)));
        assert(b.find_match(c, name, true) == (b, Ok::<Option<Found>, ErrorView>(None)));
    } else {
        assert(ia.unclaimed.contains(1) && !ia.unclaimed.contains(0) && !ia.unclaimed.contains(2));
        assert(ib.unclaimed.contains(1) && ib.unclaimed.contains(2) && !ib.unclaimed.contains(0));
        // the help flag against the token of the option
        assert(wa.subrange(0, 2) =~= dashes());
        assert(wb.subrange(0, 2) =~= dashes());
        assert(wa[0] == '-' && wa[1] == '-' && wb[0] == '-' && wb[1] == '-');
        assert(ia.short_test(1, 'h', false) == (ia, Ok::<Option<Found>, ErrorView>(None)));
        assert(ib.short_test(1, 'h', false) == (ib, Ok::<Option<Found>, ErrorView>(None)));
        let la = ia.long_test(1, help, false);
        let lb = ib.long_test(1, help, false);
        assert(la == lb) by {
            if name.len() < 4 {
                if wa.len() >= 6 {
                    assert(wa.subrange(2, 6)[name.len() as int] == '=');
                    assert(help[name.len() as int] != '=');
                }
            } else if name.len() == 4 {
                assert(wa.subrange(2, 6) =~= name);
                assert(wb.subrange(2, 6) =~= name);
            } else {
                assert(wa.subrange(2, 6) =~= name.subrange(0, 4));
                assert(wb.subrange(2, 6) =~= name.subrange(0, 4));
                assert(wa[6] == name[4] && wb[6] == name[4]);
            }
        }
        let (s2, r2) = ib.short_test(2, 'h', false);
        crate::lemmas::lemma_short_test(ib, 2, 'h', false);
        assert(s2.long_test(2, help, false) == ib.long_test(2, help, false));
        match la {
            Some(m) => {
                assert(m.place is Equals);
                assert(ia.find_match('h', help, false) == (
                    ia,
                    Ok::<Option<Found>, ErrorView>(Some(m)),
                ));
                assert(ib.find_match('h', help, false) == (
                    ib,
                    Ok::<Option<Found>, ErrorView>(Some(m)),
                ));
            },
            None => {
                assert(ia.find_match('h', help, false) == (
                    ia,
                    Ok::<Option<Found>, ErrorView>(None),
                ));
                assert(ib.find_match('h', help, false) == (
                    s2,
                    Ok::<Option<Found>, ErrorView>(None),
                ));
                assert(a == ia);
                assert(b == State { help: false, ..s2 });
                // the option itself
                assert(wa.subrange(2, end) =~= name);
                assert(wb.subrange(2, end) =~= name);
                assert(wa[end] == '=');
                assert(wa.skip(end + 1) =~= value);
                assert(!b.runs.contains_key(1)) by {
                    if b.runs.contains_key(1) {
                        assert(b.run_ok(1));
                    }
                }
                assert(a.short_test(1, c, true) == (a, Ok::<Option<Found>, ErrorView>(None)));
                assert(b.short_test(1, c, true) == (b, Ok::<Option<Found>, ErrorView>(None)));
                let ma = Found { index: 1, run_count: 0, place: Place::Equals(end) };
                let mb = Found { index: 1, run_count: 0, place: Place::Next };
                assert(a.long_test(1, name, true) == Some(ma));
                assert(b.long_test(1, name, true) == Some(mb));
                assert(a.find_match(c, name, true) == (
                    a,
                    Ok::<Option<Found>, ErrorView>(Some(ma)),
                ));
                assert(b.find_match(c, name, true) == (
                    b,
                    Ok::<Option<Found>, ErrorView>(Some(mb)),
                ));
            },
        }
    }
}

/// `-c=value` and `-c value` bind alike, from the start of a parse on: the
/// two command lines start a parse alike, without a failure and without
/// help being wanted, and an option with the short code `c`, whatever its
/// long name, is matched in both with the same result, which is the text
/// `value` wherever the program's name does not read `--`.
///
/// Left out are the code `h`, which is the help flag's own; the code `-`,
/// with which the tokens would read as long options; the value `--`, which
/// as a token is the stop; and a value that as a token is itself taken for
/// the help flag.
pub proof fn lemma_short_value_forms_bind_alike(
    prog: Seq<char>,
    c: char,
    name: Seq<char>,
    value: Seq<char>,
    required: bool,
)
    requires
        c != '\0',
        c != '-',
        c != 'h',
        value != dashes(),
        prog != dashes() ==> passes(
            State::initial(seq![prog, seq!['-', c], value]),
            2,
            'h',
            "help"@,
            false,
        ),
    ensures
        ({
            let a = State::started(seq![prog, seq!['-', c, '='] + value]);
            let b = State::started(seq![prog, seq!['-', c], value]);
            &&& !a.help && !b.help
            &&& a.failure is None && b.failure is None
            &&& a.mode() == b.mode()
            &&& a.arg_bind(c, name, required).1 == b.arg_bind(c, name, required).1
            &&& prog != dashes() ==> a.arg_bind(c, name, required).1 == Ok::<
                Option<Seq<char>>,
                ErrorView,
            >(Some(value))
        }),
{
    reveal_strlit("help");
    let help = "help"@;
    let ta = seq![prog, seq!['-', c, '='] + value];
    let tb = seq![prog, seq!['-', c], value];
    let wa = ta[1];
    let wb = tb[1];
    assert(wa.len() == 3 + value.len());
    assert(wa[0] == '-' && wa[1] == c && wa[2] == '=');
    assert(wb[0] == '-' && wb[1] == c && wb.len() == 2);
    assert(wa != dashes());
    assert(wb != dashes()) by {
        assert(dashes()[1] == '-');
    }
    lemma_stop_of_a_line(ta);
    lemma_stop_of_a_line(tb);
    let ia = State::initial(ta);
    let ib = State::initial(tb);
    crate::lemmas::lemma_initial_wf(ta);
    crate::lemmas::lemma_initial_wf(tb);
    lemma_start_of_a_parse(ta);
    lemma_start_of_a_parse(tb);
    let a = State::started(ta);
    let b = State::started(tb);
    reveal_with_fuel(State::scan, 5);
    if prog == dashes() {
        assert(ia.unclaimed =~= Set::<int>::empty());
        assert(ib.unclaimed =~= Set::<int>::empty());
        assert(ia.find_match('h', help, false) == (ia, Ok::<Option<Found>, ErrorView>(None)));
        assert(ib.find_match('h', help, false) == (ib, Ok::<Option<Found>, ErrorView>(None)));
        assert(a.find_match(c, name, true) == (a, Ok::<Option<Found>, ErrorView>(None)));
        assert(b.find_match(c, name, true) == (b, Ok::<Option<Found>, ErrorView>(None)));
    } else {
        assert(ia.unclaimed.contains(1) && !ia.unclaimed.contains(0) && !ia.unclaimed.contains(2));
        assert(ib.unclaimed.contains(1) && ib.unclaimed.contains(2) && !ib.unclaimed.contains(0));
        assert(wa.subrange(0, 2)[1] == c);
        assert(wb.subrange(0, 2)[1] == c);
        assert(dashes()[1] == '-');
        assert(ia.short_test(1, 'h', false) == (ia, Ok::<Option<Found>, ErrorView>(None)));
        assert(ib.short_test(1, 'h', false) == (ib, Ok::<Option<Found>, ErrorView>(None)));
        assert(ia.long_test(1, help, false) is None);
        assert(ib.long_test(1, help, false) is None);
        let (s2, r2) = ib.short_test(2, 'h', false);
        crate::lemmas::lemma_short_test(ib, 2, 'h', false);
        assert(s2.long_test(2, help, false) == ib.long_test(2, help, false));
        assert(ia.find_match('h', help, false) == (ia, Ok::<Option<Found>, ErrorView>(None)));
        assert(ib.find_match('h', help, false) == (s2, Ok::<Option<Found>, ErrorView>(None)));
        assert(a == ia);
        assert(b == State { help: false, ..s2 });
        assert(wa.skip(3) =~= value);
        assert(!b.runs.contains_key(1)) by {
            if b.runs.contains_key(1) {
                assert(b.run_ok(1));
            }
        }
        let ma = Found { index: 1, run_count: 0, place: Place::Equals(2) };
        let mb = Found { index: 1, run_count: 0, place: Place::Next };
        assert(a.short_test(1, c, true) == (a, Ok::<Option<Found>, ErrorView>(Some(ma))));
        assert(b.short_test(1, c, true) == (b, Ok::<Option<Found>, ErrorView>(Some(mb))));
        assert(a.find_match(c, name, true) == (a, Ok::<Option<Found>, ErrorView>(Some(ma))));
        assert(b.find_match(c, name, true) == (b, Ok::<Option<Found>, ErrorView>(Some(mb))));
    }
}

/// A counter that ends without a failure has found all there was: in the
/// state it leaves, the search for its option finds nothing, so that every
/// token still unclaimed passes it.
pub proof fn lemma_count_finds_all(st: State, c: char, name: Seq<char>)
    requires
        st.wf(),
    ensures
        st.count_loop(c, name).2 is None ==> {
            let end = st.count_loop(c, name).0;
            &&& end.find_match(c, name, false) == (end, Ok::<Option<Found>, ErrorView>(None))
            &&& forall|j: int|
                end.unclaimed.contains(j) ==> #[trigger] passes(end, j, c, name, false)
        },
    decreases st.potential(),
{
    let (s1, r) = st.find_match(c, name, false);
    lemma_match_lowers_potential(st, c, name, false);
    match r {
        Ok(Some(m)) => {
            if m.place is Absent {
                lemma_count_finds_all(s1.claim_match(m), c, name);
            }
        },
        Ok(None) => {
            lemma_leftmost_match_wins(st, c, name, false);
        },
        Err(_) => {},
    }
}

/// A list that ends without a failure has found all there was: in the
/// state it leaves, the search for its option finds nothing, so that every
/// token still unclaimed passes it.
pub proof fn lemma_list_finds_all(st: State, c: char, name: Seq<char>, required: bool, seen: nat)
    requires
        st.wf(),
    ensures
        st.list_all(c, name, required, seen).2 is None ==> {
            let end = st.list_all(c, name, required, seen).0;
            &&& end.find_match(c, name, true) == (end, Ok::<Option<Found>, ErrorView>(None))
            &&& forall|j: int|
                end.unclaimed.contains(j) ==> #[trigger] passes(end, j, c, name, true)
        },
    decreases st.potential(),
{
    let (s1, r) = st.arg_bind(c, name, false);
    lemma_arg_bind_is_a_step(st, c, name, false);
    lemma_match_lowers_potential(st, c, name, true);
    match r {
        Ok(Some(raw)) => {
            lemma_list_finds_all(s1, c, name, required, seen + 1);
        },
        Ok(None) => {
            lemma_leftmost_match_wins(st, c, name, true);
        },
        Err(_) => {},
    }
}

} // verus!
