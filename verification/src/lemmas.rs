//! Proofs about the steps of the match engine.

use vstd::prelude::*;
use vstd::set_lib::{lemma_int_range, lemma_len_subset, set_int_range};
use crate::errors::ErrorView;
use crate::found::{Found, Place};
use crate::bits::lists;
use crate::model::{dashes, is_first_stop, Matched, State};

verus! {

/// What holds between a well-formed state and the state and answer that a
/// query of the match engine leaves, the query having started at `from`. A
/// query that finds nothing, or fails, leaves the state as it was.
pub open spec fn engine_step(st: State, s1: State, r: Matched, from: int) -> bool {
    &&& s1.wf()
    &&& st.precedes(s1)
    &&& s1 == (State { runs: s1.runs, unclaimed: s1.unclaimed, ..st })
    &&& forall|j: int| #[trigger] s1.weight(j) <= st.weight(j)
    &&& match r {
        Err(_) => s1 == st,
        Ok(None) => s1 == st,
        Ok(Some(m)) => {
            &&& from <= m.index < st.limit()
            &&& st.unclaimed.contains(m.index)
            &&& m.run_count < st.tokens[m.index].len()
            &&& if m.run_count == 0 {
                &&& s1.unclaimed == st.unclaimed
                &&& m.place matches Place::Equals(off) ==> 2 <= off < st.tokens[m.index].len()
                &&& m.place is Next ==> st.unclaimed.contains(m.index + 1)
            } else {
                &&& s1.weight(m.index) < st.weight(m.index)
                &&& m.place !is Equals
                &&& s1.unclaimed == st.unclaimed || s1.unclaimed == st.unclaimed.remove(m.index)
            }
        },
    }
}

/// The open offsets of a token are finitely many, fewer than the token has
/// characters.
pub proof fn lemma_open_offsets(st: State, i: int)
    requires
        st.wf(),
        0 <= i < st.tokens.len(),
    ensures
        st.open_offsets(i).finite(),
        st.open_offsets(i).subset_of(set_int_range(1, st.tokens[i].len() as int)),
        st.tokens[i].len() >= 1 ==> st.open_offsets(i).len() <= st.tokens[i].len() - 1,
        st.tokens[i].len() == 0 ==> st.open_offsets(i).len() == 0,
{
    let n = st.tokens[i].len() as int;
    if n >= 1 {
        lemma_int_range(1, n);
        lemma_len_subset(st.open_offsets(i), set_int_range(1, n));
    } else {
        assert(set_int_range(1, n) =~= Set::<int>::empty());
        assert(st.open_offsets(i) =~= Set::<int>::empty());
    }
}

pub proof fn lemma_run_lookup(st: State, i: int, c: char, expect_value: bool)
    requires
        st.wf(),
        st.unclaimed.contains(i),
        st.runs.contains_key(i) || crate::model::cluster_shaped(st.tokens[i]),
    ensures
        engine_step(
            st,
            st.run_lookup(i, c, expect_value).0,
            st.run_lookup(i, c, expect_value).1,
            i,
        ),
        st.run_lookup(i, c, expect_value).1 matches Ok(Some(m)) ==> m.index == i && m.run_count
            > 0,
{
    let t = st.tokens[i];
    let (s1, r) = st.run_lookup(i, c, expect_value);
    lemma_open_offsets(st, i);
    let open = st.open_offsets(i);
    let claimed = open.intersect(crate::model::hits(t, c));
    let rest = open.difference(crate::model::hits(t, c));
    lemma_len_subset(claimed, open);
    lemma_len_subset(rest, open);
    if !st.runs.contains_key(i) {
        lemma_int_range(1, t.len() as int);
        assert(open.contains(1));
    }
    if expect_value && crate::model::buried(t, c) {
        assert(s1 == st);
        assert(st.precedes(st));
    } else if claimed.len() == 0 {
        assert(s1 == st);
        assert(st.precedes(st));
    } else {
        let x = claimed.choose();
        assert(claimed.contains(x));
        assert(rest.subset_of(open.remove(x)));
        lemma_len_subset(rest, open.remove(x));
        assert(s1.open_offsets(i) == rest);
        assert forall|j: int| #[trigger] s1.weight(j) <= st.weight(j) by {
            if j != i {
                assert(s1.open_offsets(j) == st.open_offsets(j));
            }
        }
        assert forall|j: int| 0 <= j < st.tokens.len() implies (#[trigger] s1.open_offsets(
            j,
        )).subset_of(st.open_offsets(j)) by {
            if j != i {
                assert(s1.open_offsets(j) == st.open_offsets(j));
            }
        }
        assert(s1.runs.dom() =~= st.runs.dom().insert(i));
        if rest.len() != 0 {
            assert(rest.contains(rest.choose()));
        }
        assert(s1.run_ok(i));
        assert forall|j: int| #[trigger] s1.runs.contains_key(j) implies s1.run_ok(j) by {
            if j != i {
                assert(st.runs.contains_key(j) && st.run_ok(j));
                assert(s1.runs[j] == st.runs[j]);
                if s1.unclaimed.contains(j) {
                    let k = choose|k: int| st.runs[j].contains(k);
                    assert(s1.runs[j].contains(k));
                }
            }
        }
        assert(s1.wf());
        assert(s1.weight(i) < st.weight(i));
    }
}

pub proof fn lemma_short_test(st: State, i: int, c: char, expect_value: bool)
    requires
        st.wf(),
        st.unclaimed.contains(i),
    ensures
        engine_step(
            st,
            st.short_test(i, c, expect_value).0,
            st.short_test(i, c, expect_value).1,
            i,
        ),
        st.short_test(i, c, expect_value).1 matches Ok(Some(m)) ==> m.index == i,
{
    let t = st.tokens[i];
    let (s1, r) = st.short_test(i, c, expect_value);
    if s1 != st {
        lemma_run_lookup(st, i, c, expect_value);
    } else {
        assert(st.precedes(st));
        if r is Ok && r->Ok_0 is Some && r->Ok_0->0.run_count != 0 {
            lemma_run_lookup(st, i, c, expect_value);
        }
    }
}

pub proof fn lemma_long_test(st: State, i: int, name: Seq<char>, expect_value: bool)
    requires
        st.wf(),
        st.unclaimed.contains(i),
    ensures
        engine_step(st, st, Ok(st.long_test(i, name, expect_value)), i),
        st.long_test(i, name, expect_value) matches Some(m) ==> m.index == i && m.run_count == 0,
{
    assert(st.precedes(st));
}

/// Two steps of the engine, one after the other, are a step.
pub proof fn lemma_engine_step_chain(st: State, s1: State, s2: State, r: Matched, a: int, b: int)
    requires
        st.wf(),
        engine_step(st, s1, Ok(None), a),
        engine_step(s1, s2, r, b),
        a <= b,
    ensures
        engine_step(st, s2, r, a),
{
    assert forall|j: int| #[trigger] s2.weight(j) <= st.weight(j) by {
        assert(s2.weight(j) <= s1.weight(j));
        assert(s1.weight(j) <= st.weight(j));
    }
    assert forall|i: int| 0 <= i < st.tokens.len() implies (#[trigger] s2.open_offsets(
        i,
    )).subset_of(st.open_offsets(i)) by {
        assert(s2.open_offsets(i).subset_of(s1.open_offsets(i)));
        assert(s1.open_offsets(i).subset_of(st.open_offsets(i)));
    }
    match r {
        Ok(Some(m)) => {
            if m.run_count != 0 {
                assert(s1.weight(m.index) <= st.weight(m.index));
            }
        },
        _ => {},
    }
}

/// A query of the match engine keeps the state well formed, claims nothing
/// but what it reports, and reports only an unclaimed token at or behind
/// the place where it started.
pub proof fn lemma_scan(st: State, c: char, name: Seq<char>, expect_value: bool, from: int)
    requires
        st.wf(),
        0 <= from,
    ensures
        engine_step(
            st,
            st.scan(c, name, expect_value, from).0,
            st.scan(c, name, expect_value, from).1,
            from,
        ),
    decreases st.tokens.len() - from,
{
    if from >= st.tokens.len() {
        assert(st.precedes(st));
    } else if !st.unclaimed.contains(from) {
        lemma_scan(st, c, name, expect_value, from + 1);
    } else {
        let (s1, r) = st.short_test(from, c, expect_value);
        lemma_short_test(st, from, c, expect_value);
        if r != Ok::<Option<Found>, ErrorView>(None) {
        } else {
            lemma_long_test(s1, from, name, expect_value);
            match s1.long_test(from, name, expect_value) {
                Some(m) => {
                    lemma_engine_step_chain(st, s1, s1, Ok(Some(m)), from, from);
                },
                None => {
                    lemma_scan(s1, c, name, expect_value, from + 1);
                    let (s2, r2) = s1.scan(c, name, expect_value, from + 1);
                    lemma_engine_step_chain(st, s1, s2, r2, from, from + 1);
                },
            }
        }
    }
}

/// Where no token from `a` up to `b` is unclaimed, a scan from `a` is a
/// scan from `b`.
pub proof fn lemma_scan_skip(st: State, c: char, name: Seq<char>, expect_value: bool, a: int, b: int)
    requires
        0 <= a <= b,
        forall|j: int| a <= j < b ==> !st.unclaimed.contains(j),
    ensures
        b <= st.tokens.len() ==> st.scan(c, name, expect_value, a) == st.scan(
            c,
            name,
            expect_value,
            b,
        ),
        b >= st.tokens.len() ==> st.scan(c, name, expect_value, a) == (
            st,
            Ok::<Option<Found>, ErrorView>(None),
        ),
    decreases b - a,
{
    if a < b && a < st.tokens.len() {
        lemma_scan_skip(st, c, name, expect_value, a + 1, b);
    }
}

/// The potential is the sum of the weights, so it falls where no weight
/// rises and one falls.
pub proof fn lemma_potential_below(a: State, b: State, k: int, at: int)
    requires
        forall|j: int| #[trigger] b.weight(j) <= a.weight(j),
    ensures
        b.potential_below(k) <= a.potential_below(k),
        0 <= at < k && b.weight(at) < a.weight(at) ==> b.potential_below(k) < a.potential_below(k),
    decreases k,
{
    if k > 0 {
        lemma_potential_below(a, b, k - 1, at);
        assert(b.weight(k - 1) <= a.weight(k - 1));
    }
}

/// Claiming a token keeps the state well formed and lowers the potential
/// where the token was unclaimed.
pub proof fn lemma_claim(st: State, i: int)
    requires
        st.wf(),
    ensures
        st.claim(i).wf(),
        st.precedes(st.claim(i)),
        forall|j: int| #[trigger] st.claim(i).weight(j) <= st.weight(j),
        st.unclaimed.contains(i) ==> st.claim(i).weight(i) < st.weight(i),
{
    let s1 = st.claim(i);
    assert forall|j: int| #[trigger] s1.runs.contains_key(j) implies s1.run_ok(j) by {
        assert(st.run_ok(j));
        if s1.unclaimed.contains(j) {
            let k = choose|k: int| st.runs[j].contains(k);
            assert(s1.runs[j].contains(k));
        }
    }
    assert forall|j: int| 0 <= j < st.tokens.len() implies (#[trigger] s1.open_offsets(
        j,
    )).subset_of(st.open_offsets(j)) by {
        assert(s1.open_offsets(j) == st.open_offsets(j));
    }
    assert forall|j: int| #[trigger] s1.weight(j) <= st.weight(j) by {
        assert(s1.open_offsets(j) == st.open_offsets(j));
    }
}

/// A change that touches neither the tokens, the mask nor the cluster
/// states leaves what the input offers as it is.
pub proof fn lemma_same_offer(a: State, b: State)
    requires
        a.tokens == b.tokens,
        a.unclaimed == b.unclaimed,
        a.runs == b.runs,
    ensures
        forall|j: int| #[trigger] b.weight(j) == a.weight(j),
        forall|j: int| #[trigger] b.open_offsets(j) == a.open_offsets(j),
        forall|k: int| #[trigger] b.potential_below(k) == a.potential_below(k),
        b.potential() == a.potential(),
{
    assert forall|j: int| #[trigger] b.open_offsets(j) == a.open_offsets(j) by {}
    assert forall|j: int| #[trigger] b.weight(j) == a.weight(j) by {
        assert(b.open_offsets(j) == a.open_offsets(j));
    }
    assert forall|k: int| #[trigger] b.potential_below(k) == a.potential_below(k) by {
        lemma_same_offer_below(a, b, k);
    }
}

proof fn lemma_same_offer_below(a: State, b: State, k: int)
    requires
        forall|j: int| #[trigger] b.weight(j) == a.weight(j),
    ensures
        b.potential_below(k) == a.potential_below(k),
    decreases k,
{
    if k > 0 {
        lemma_same_offer_below(a, b, k - 1);
        assert(b.weight(k - 1) == a.weight(k - 1));
    }
}

/// The least member of a set is one of its members, and none is below it.
pub proof fn lemma_lowest_is_member(s: Set<int>)
    ensures
        crate::model::lowest(s) matches Some(i) ==> crate::model::is_lowest(s, i),
{
}

/// A match lowers what the input offers, once what matched is claimed:
/// its token, or in a cluster its characters; and claiming the token behind
/// it as its value keeps it so.
pub proof fn lemma_match_lowers_potential(st: State, c: char, name: Seq<char>, expect_value: bool)
    requires
        st.wf(),
    ensures
        ({
            let (s1, r) = st.find_match(c, name, expect_value);
            &&& engine_step(st, s1, r, 0)
            &&& r matches Ok(Some(m)) ==> {
                &&& s1.claim_match(m).wf()
                &&& s1.claim_match(m).potential() < st.potential()
                &&& s1.claim_match(m).claim(m.index + 1).wf()
                &&& s1.claim_match(m).claim(m.index + 1).potential() < st.potential()
            }
        }),
{
    let (s1, r) = st.find_match(c, name, expect_value);
    lemma_scan(st, c, name, expect_value, 0);
    match r {
        Ok(Some(m)) => {
            let n = st.tokens.len() as int;
            let s2 = s1.claim_match(m);
            let s3 = s2.claim(m.index + 1);
            lemma_claim(s1, m.index);
            lemma_claim(s2, m.index + 1);
            assert forall|j: int| #[trigger] s2.weight(j) <= st.weight(j) by {
                assert(s2.weight(j) <= s1.weight(j));
                assert(s1.weight(j) <= st.weight(j));
            }
            assert forall|j: int| #[trigger] s3.weight(j) <= st.weight(j) by {
                assert(s3.weight(j) <= s2.weight(j));
                assert(s2.weight(j) <= st.weight(j));
            }
            assert(s2.weight(m.index) < st.weight(m.index));
            assert(s3.weight(m.index) <= s2.weight(m.index));
            lemma_potential_below(st, s2, n, m.index);
            lemma_potential_below(st, s3, n, m.index);
        },
        _ => {},
    }
}

/// The items of `idxs` as mathematical integers.
pub open spec fn ints(idxs: Seq<usize>) -> Seq<int> {
    Seq::new(idxs.len(), |k: int| idxs[k] as int)
}

/// The end of the positions that the first `k` items of a listing cover.
pub open spec fn covered(idxs: Seq<usize>, k: int) -> int {
    if k <= 0 {
        0
    } else {
        idxs[k - 1] + 1
    }
}

/// Between two neighbours of a listing there is no member.
pub proof fn lemma_gap(idxs: Seq<usize>, s: Set<int>, k: int, v: int)
    requires
        lists(idxs, s),
        0 <= k <= idxs.len(),
        covered(idxs, k) <= v,
        k < idxs.len() ==> v < idxs[k],
    ensures
        !s.contains(v),
{
    if s.contains(v) {
        let j = choose|j: int| 0 <= j < idxs.len() && idxs[j] as int == v;
        if j < k {
            if j < k - 1 {
                assert(idxs[j] < idxs[k - 1]);
            }
        } else if j > k {
            assert(idxs[k] < idxs[j]);
        }
    }
}

/// Where `s` has no member from `a` up to `b`, its members below `b` are
/// those below `a`.
pub proof fn lemma_ascending_skip(s: Set<int>, a: int, b: int)
    requires
        a <= b,
        forall|v: int| a <= v < b ==> !s.contains(v),
    ensures
        crate::model::ascending(s, b) == crate::model::ascending(s, a),
    decreases b - a,
{
    if a < b {
        lemma_ascending_skip(s, a, b - 1);
    }
}

/// The first `k` items of a listing are the members below the end of what
/// they cover.
pub proof fn lemma_listing_upto(idxs: Seq<usize>, s: Set<int>, k: int)
    requires
        lists(idxs, s),
        0 <= k <= idxs.len(),
    ensures
        crate::model::ascending(s, covered(idxs, k)) == ints(idxs.take(k)),
    decreases k,
{
    if k == 0 {
        assert(ints(idxs.take(0)) =~= Seq::<int>::empty());
    } else {
        lemma_listing_upto(idxs, s, k - 1);
        let i = idxs[k - 1] as int;
        assert forall|v: int| covered(idxs, k - 1) <= v < i implies !s.contains(v) by {
            lemma_gap(idxs, s, k - 1, v);
        }
        if k - 1 > 0 {
            assert(idxs[k - 2] < idxs[k - 1]);
        }
        lemma_ascending_skip(s, covered(idxs, k - 1), i);
        assert(s.contains(idxs[k - 1] as int));
        assert(ints(idxs.take(k)) =~= ints(idxs.take(k - 1)).push(i));
    }
}

/// A listing of a set of positions below `n` is the set in ascending order.
pub proof fn lemma_listing(idxs: Seq<usize>, s: Set<int>, n: int)
    requires
        lists(idxs, s),
        forall|v: int| s.contains(v) ==> 0 <= v < n,
    ensures
        crate::model::ascending(s, n) == ints(idxs),
{
    let k = idxs.len() as int;
    lemma_listing_upto(idxs, s, k);
    assert(idxs.take(k) =~= idxs);
    if k > 0 {
        assert(s.contains(idxs[k - 1] as int));
    }
    assert forall|v: int| covered(idxs, k) <= v < n implies !s.contains(v) by {
        lemma_gap(idxs, s, k, v);
    }
    if covered(idxs, k) <= n {
        lemma_ascending_skip(s, covered(idxs, k), n);
    }
}

/// The initial state is well formed.
pub proof fn lemma_initial_wf(tokens: Seq<Seq<char>>)
    ensures
        State::initial(tokens).wf(),
{
    let st = State::initial(tokens);
    if exists|s: int| is_first_stop(tokens, s) {
        let s = choose|s: int| is_first_stop(tokens, s);
        assert(st.stop == Some(s));
    } else {
        assert forall|j: int| 0 <= j < tokens.len() implies tokens[j] != dashes() by {
            if tokens[j] == dashes() {
                lemma_first_stop_exists(tokens, j);
            }
        }
    }
    if st.limit() >= 1 {
        lemma_int_range(1, st.limit());
    } else {
        assert(st.unclaimed =~= Set::<int>::empty());
    }
    assert(st.runs.dom() =~= Set::<int>::empty());
}

/// Where some token up to `j` reads `--`, one of them is the first.
pub proof fn lemma_first_stop_exists(tokens: Seq<Seq<char>>, j: int)
    requires
        0 <= j < tokens.len(),
        tokens[j] == dashes(),
    ensures
        exists|s: int| is_first_stop(tokens, s),
    decreases j,
{
    if exists|k: int| 0 <= k < j && tokens[k] == dashes() {
        let k = choose|k: int| 0 <= k < j && tokens[k] == dashes();
        lemma_first_stop_exists(tokens, k);
    } else {
        assert(is_first_stop(tokens, j));
    }
}

} // verus!
