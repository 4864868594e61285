//! What the declarations promise.
//!
//! Each predicate here is the whole contract of the declaration it is named
//! after: it relates the state in which the declaration started, the parser
//! it leaves, the failure it returned, and the target before and after.
//!
//! A declaration with a typed target turns the text it finds into a value
//! by a conversion that its caller hands in, so what it promises of its
//! target is said over what the conversion ensures.

use vstd::prelude::*;
use crate::declare::Mode;
use crate::errors::{Error, ErrorView};
use crate::model::State;
use crate::parser::Parser;
use crate::printer::{ArgumentView, PositionalView};

verus! {

/// `parse` can turn the text `raw` into `out`.
pub open spec fn converts<T, F: Fn(&str) -> Result<T, String>>(
    parse: F,
    raw: Seq<char>,
    out: Result<T, String>,
) -> bool {
    exists|s: &str| s@ == raw && #[trigger] parse.ensures((s,), out)
}

/// `text` is a way in which `v` displays itself.
pub open spec fn shows<T: std::fmt::Display>(v: &T, text: Seq<char>) -> bool {
    exists|s: String|
        s@ == text && #[trigger] vstd::string::to_string_from_display_ensures::<T>(v, s)
}

/// What holds when [`Parser::flag`] returns: `before` is the state it
/// started in, `after` the parser it leaves, `failure` what it returned.
///
/// The parser is left in the state that [`State::flag`] gives, and the
/// target holds the value that it gives; where it gives a failure, that is
/// returned and the target is as it was.
pub open spec fn flag_post(
    before: State,
    after: Parser,
    failure: Option<Error>,
    old_value: bool,
    new_value: bool,
    short: char,
    long: Seq<char>,
    desc: Seq<char>,
    invert: bool,
) -> bool {
    let (s1, out) = before.flag(short, long, desc, old_value, invert);
    &&& after.lands(s1)
    &&& match failure {
        None => out == Ok::<bool, ErrorView>(new_value),
        Some(e) => out == Err::<bool, ErrorView>(e@) && new_value == old_value,
    }
}

/// What holds when [`Parser::done`] or [`Parser::group`] returns: the
/// parser `after` is left in the state of `step`, and what was returned is
/// the failure of `step`, if it has one.
pub open spec fn scope_post(after: Parser, failure: Option<Error>, step: crate::declare::Step<()>)
    -> bool {
    &&& after.lands(step.0)
    &&& match failure {
        None => step.1 is Ok,
        Some(e) => step.1 == Err::<(), ErrorView>(e@),
    }
}

/// What holds when [`Parser::arg`] returns: `before` is the state it
/// started in, `after` the parser it leaves, `failure` what it returned.
///
/// After a failure it returns that failure, and outside the scope that is
/// read it does nothing. While help is wanted it registers the option with
/// the value of the target as its default. Else the option is matched as
/// [`State::arg_bind`] says, and where it has a value, `parse` turns its
/// text into the new value of the target; where `parse` fails, the failure
/// names the option and carries the message of `parse`.
pub open spec fn arg_post<T: std::fmt::Display, F: Fn(&str) -> Result<T, String>>(
    before: State,
    after: Parser,
    failure: Option<Error>,
    old_value: T,
    new_value: T,
    short: char,
    long: Seq<char>,
    desc: Seq<char>,
    label: Option<Seq<char>>,
    required: bool,
    parse: F,
) -> bool {
    match before.mode() {
        Mode::Blocked => {
            &&& failure matches Some(e)
            &&& Some(e@) == before.failure
            &&& after.lands(before)
            &&& new_value == old_value
        },
        Mode::Inert => failure is None && after.lands(before) && new_value == old_value,
        Mode::Schema => {
            &&& failure is None
            &&& new_value == old_value
            &&& exists|shown: Seq<char>|
                shows(&old_value, shown) && #[trigger] after.lands(
                    before.register_arg(
                        ArgumentView {
                            short,
                            long,
                            desc,
                            label,
                            default: Some(shown),
                            required,
                        },
                    ),
                )
        },
        Mode::Bind => {
            let (s1, out) = before.arg_bind(short, long, required);
            match out {
                Err(e) => {
                    &&& failure matches Some(x)
                    &&& x@ == e
                    &&& after.lands(s1.fail(e))
                    &&& new_value == old_value
                },
                Ok(None) => failure is None && after.lands(s1) && new_value == old_value,
                Ok(Some(raw)) => match failure {
                    None => after.lands(s1) && converts(parse, raw, Ok(new_value)),
                    Some(Error::ConstructionError(c, l, m)) => {
                        &&& c == short
                        &&& l@ == long
                        &&& converts(parse, raw, Err(m))
                        &&& after.lands(s1.fail(ErrorView::ConstructionError(short, long, m@)))
                        &&& new_value == old_value
                    },
                    Some(_) => false,
                },
            }
        },
    }
}

/// `text`, or nothing where it is empty.
pub open spec fn unless_empty(text: Seq<char>) -> Option<Seq<char>> {
    if text.len() == 0 {
        None
    } else {
        Some(text)
    }
}

/// What holds when [`Parser::positional`] returns: `before` is the state it
/// started in, `after` the parser it leaves, `failure` what it returned.
///
/// After a failure it returns that failure, and outside the scope that is
/// read it does nothing. Behind the variadic positional it fails. While
/// help is wanted it registers itself, with the value of the target as its
/// default unless that displays as nothing. Else it takes the lowest
/// unclaimed token: `parse` turns its text into the new value of the
/// target, and the token is claimed. Where `parse` fails, the token stays
/// unclaimed, and the failure names the positional and carries the message
/// of `parse`. Where no token is left, it fails if it is required.
pub open spec fn positional_post<T: std::fmt::Display, F: Fn(&str) -> Result<T, String>>(
    before: State,
    after: Parser,
    failure: Option<Error>,
    old_value: T,
    new_value: T,
    name: Seq<char>,
    desc: Seq<char>,
    required: bool,
    parse: F,
) -> bool {
    match before.mode() {
        Mode::Blocked => {
            &&& failure matches Some(e)
            &&& Some(e@) == before.failure
            &&& after.lands(before)
            &&& new_value == old_value
        },
        Mode::Inert => failure is None && after.lands(before) && new_value == old_value,
        _ => if before.variadic {
            &&& failure matches Some(e)
            &&& e@ == ErrorView::UnorderedPositionals(name)
            &&& after.lands(before.fail(e@))
            &&& new_value == old_value
        } else if before.help {
            &&& failure is None
            &&& new_value == old_value
            &&& exists|shown: Seq<char>|
                shows(&old_value, shown) && #[trigger] after.lands(
                    before.with_schema(
                        before.schema.add_positional(
                            PositionalView {
                                name,
                                desc,
                                default: unless_empty(shown),
                                required,
                                variadic: false,
                            },
                        ),
                    ),
                )
        } else {
            match before.positional_bind(name, required).1 {
                Err(e) => {
                    &&& failure matches Some(x)
                    &&& x@ == e
                    &&& after.lands(before.fail(e))
                    &&& new_value == old_value
                },
                Ok(None) => failure is None && after.lands(before) && new_value == old_value,
                Ok(Some(i)) => match failure {
                    None => after.lands(before.claim(i)) && converts(
                        parse,
                        before.tokens[i],
                        Ok(new_value),
                    ),
                    Some(Error::PositionalConstructionError(n, m)) => {
                        &&& n@ == name
                        &&& converts(parse, before.tokens[i], Err(m))
                        &&& after.lands(
                            before.fail(ErrorView::PositionalConstructionError(name, m@)),
                        )
                        &&& new_value == old_value
                    },
                    Some(_) => false,
                },
            }
        },
    }
}

/// The text of an optional long description: nothing where there is none.
pub open spec fn long_text(long_desc: Option<&'static str>) -> Seq<char> {
    match long_desc {
        Some(d) => d@,
        None => ""@,
    }
}

/// What holds when [`Parser::subcommand`] returns: `before` is the state it
/// started in, `after` the parser it leaves, `failure` what it returned,
/// `old_path` and `new_path` the target before and after.
///
/// After a failure it returns that failure. Else the nesting deepens, and
/// the declaration is read as [`State::subcommand_probe`] says. Where its
/// token is found, `parse` turns the token into a value that is appended to
/// the target, and the subcommand is committed to. Where `parse` fails, the
/// token stays claimed, nothing is committed, and the failure names the
/// subcommand and carries the message of `parse`.
pub open spec fn subcommand_post<T, F: Fn(&str) -> Result<T, String>>(
    before: State,
    after: Parser,
    failure: Option<Error>,
    old_path: Seq<T>,
    new_path: Seq<T>,
    name: Seq<char>,
    desc: Seq<char>,
    long_desc: Seq<char>,
    parse: F,
) -> bool {
    if before.failure is Some {
        &&& failure matches Some(e)
        &&& Some(e@) == before.failure
        &&& after.lands(before)
        &&& new_path == old_path
    } else {
        let (s1, out) = before.subcommand_probe(name, desc);
        match out {
            Err(e) => {
                &&& failure matches Some(x)
                &&& x@ == e
                &&& after.lands(s1.fail(e))
                &&& new_path == old_path
            },
            Ok(None) => failure is None && after.lands(s1) && new_path == old_path,
            Ok(Some(i)) => match failure {
                None => {
                    &&& new_path.len() == old_path.len() + 1
                    &&& new_path.drop_last() == old_path
                    &&& converts(parse, before.tokens[i], Ok(new_path.last()))
                    &&& after.lands(s1.commit(name, desc, long_desc))
                },
                Some(Error::SubConstructionError(n, m)) => {
                    &&& n@ == name
                    &&& converts(parse, before.tokens[i], Err(m))
                    &&& after.lands(s1.fail(ErrorView::SubConstructionError(name, m@)))
                    &&& new_path == old_path
                },
                Some(_) => false,
            },
        }
    }
}

/// `to` is reached from `from` by `n` steps of `advance`, each by `step`.
pub open spec fn stepped<T, F: Fn(&T, &T) -> T>(advance: F, from: T, step: T, n: nat, to: T) -> bool
    decreases n,
{
    if n == 0 {
        to == from
    } else {
        exists|mid: T|
            stepped(advance, from, step, (n - 1) as nat, mid) && #[trigger] advance.ensures(
                (&mid, &step),
                to,
            )
    }
}

/// What holds when [`Parser::count`] returns: `before` is the state it
/// started in, `after` the parser it leaves, `failure` what it returned.
///
/// After a failure it returns that failure, and outside the scope that is
/// read it does nothing. While help is wanted it registers the option with
/// the value of the target as its default. Else the option is counted as
/// [`State::count_loop`] says, and `step` is added to the target once for
/// each time counted, also where the count ends in a failure.
pub open spec fn count_post<T: std::fmt::Display, F: Fn(&T, &T) -> T>(
    before: State,
    after: Parser,
    failure: Option<Error>,
    old_value: T,
    new_value: T,
    short: char,
    long: Seq<char>,
    desc: Seq<char>,
    step: T,
    advance: F,
) -> bool {
    match before.mode() {
        Mode::Blocked => {
            &&& failure matches Some(e)
            &&& Some(e@) == before.failure
            &&& after.lands(before)
            &&& new_value == old_value
        },
        Mode::Inert => failure is None && after.lands(before) && new_value == old_value,
        Mode::Schema => {
            &&& failure is None
            &&& new_value == old_value
            &&& exists|shown: Seq<char>|
                shows(&old_value, shown) && #[trigger] after.lands(
                    before.register_arg(
                        ArgumentView {
                            short,
                            long,
                            desc,
                            label: None,
                            default: Some(shown),
                            required: false,
                        },
                    ),
                )
        },
        Mode::Bind => {
            let (s1, n, err) = before.count_loop(short, long);
            &&& stepped(advance, old_value, step, n, new_value)
            &&& match err {
                None => failure is None && after.lands(s1),
                Some(e) => failure matches Some(x) && x@ == e && after.lands(s1.fail(e)),
            }
        },
    }
}

/// `target` holds what `before` held and, behind it, the first `k` of the
/// texts `raws` as `parse` turned them into values.
pub open spec fn pushed<T, F: Fn(&str) -> Result<T, String>>(
    parse: F,
    raws: Seq<Seq<char>>,
    k: int,
    before: Seq<T>,
    target: Seq<T>,
) -> bool {
    &&& target.len() == before.len() + k
    &&& target.take(before.len() as int) == before
    &&& forall|j: int|
        0 <= j < k ==> converts(parse, #[trigger] raws[j], Ok(target[before.len() + j]))
}

/// What holds when [`Parser::list`] returns: `before` is the state it
/// started in, `after` the parser it leaves, `failure` what it returned,
/// `old_items` and `new_items` the target before and after.
///
/// After a failure it returns that failure, and outside the scope that is
/// read it does nothing. While help is wanted it registers the option.
/// Else the values of the option are found as [`State::list_all`] says,
/// and `parse` turns each, as soon as it is found, into a value that is
/// appended to the target. Where `parse` fails on a value, the search ends
/// there: the values before it were appended, and the failure names the
/// option and carries the message of `parse`.
pub open spec fn list_post<T, F: Fn(&str) -> Result<T, String>>(
    before: State,
    after: Parser,
    failure: Option<Error>,
    old_items: Seq<T>,
    new_items: Seq<T>,
    short: char,
    long: Seq<char>,
    desc: Seq<char>,
    label: Option<Seq<char>>,
    required: bool,
    parse: F,
) -> bool {
    match before.mode() {
        Mode::Blocked => {
            &&& failure matches Some(e)
            &&& Some(e@) == before.failure
            &&& after.lands(before)
            &&& new_items == old_items
        },
        Mode::Inert => failure is None && after.lands(before) && new_items == old_items,
        Mode::Schema => {
            &&& failure is None
            &&& new_items == old_items
            &&& after.lands(
                before.register_arg(
                    ArgumentView { short, long, desc, label, default: None, required },
                ),
            )
        },
        Mode::Bind => {
            let (s1, raws, err) = before.list_all(short, long, required, 0);
            match failure {
                None => {
                    &&& err is None
                    &&& after.lands(s1)
                    &&& pushed(parse, raws, raws.len() as int, old_items, new_items)
                },
                Some(x) => {
                    ||| {
                        &&& err == Some(x@)
                        &&& after.lands(s1.fail(x@))
                        &&& pushed(parse, raws, raws.len() as int, old_items, new_items)
                    }
                    ||| exists|k: int|
                        {
                            &&& 0 <= k < raws.len()
                            &&& #[trigger] pushed(parse, raws, k, old_items, new_items)
                            &&& x matches Error::ConstructionError(c, l, m)
                            &&& c == short
                            &&& l@ == long
                            &&& converts(parse, raws[k], Err(m))
                            &&& after.lands(
                                before.list_state(short, long, (k + 1) as nat).fail(x@),
                            )
                        }
                },
            }
        },
    }
}

/// What holds when [`Parser::positional_list`] returns: `before` is the
/// state it started in, `after` the parser it leaves, `failure` what it
/// returned, `old_items` and `new_items` the target before and after.
///
/// After a failure it returns that failure, and outside the scope that is
/// read it does nothing. A second variadic positional fails. While help is
/// wanted it registers itself. Else `parse` turns each of the texts of
/// [`State::variadic_raws`], in order, into a value that is appended to
/// the target; then every token is claimed. Where `parse` fails on a text,
/// the values before it were appended, and the tokens are claimed only if
/// the text stood behind `--`. Where nothing was collected, it fails if it
/// is required.
pub open spec fn positional_list_post<T, F: Fn(&str) -> Result<T, String>>(
    before: State,
    after: Parser,
    failure: Option<Error>,
    old_items: Seq<T>,
    new_items: Seq<T>,
    name: Seq<char>,
    desc: Seq<char>,
    required: bool,
    parse: F,
) -> bool {
    match before.mode() {
        Mode::Blocked => {
            &&& failure matches Some(e)
            &&& Some(e@) == before.failure
            &&& after.lands(before)
            &&& new_items == old_items
        },
        Mode::Inert => failure is None && after.lands(before) && new_items == old_items,
        _ => if before.variadic {
            &&& failure matches Some(e)
            &&& e@ == ErrorView::MultipleVariadic(name)
            &&& after.lands(before.fail(e@))
            &&& new_items == old_items
        } else {
            let declared = State { variadic: true, ..before };
            let emptied = State { unclaimed: Set::empty(), ..declared };
            let raws = before.variadic_raws();
            if before.help {
                &&& failure is None
                &&& new_items == old_items
                &&& after.lands(
                    declared.with_schema(
                        declared.schema.add_positional(
                            PositionalView {
                                name,
                                desc,
                                default: None,
                                required,
                                variadic: true,
                            },
                        ),
                    ),
                )
            } else {
                match failure {
                    None => {
                        &&& pushed(parse, raws, raws.len() as int, old_items, new_items)
                        &&& !(required && raws.len() == 0)
                        &&& after.lands(emptied)
                    },
                    Some(Error::PositionalConstructionError(n, m)) => {
                        &&& n@ == name
                        &&& exists|k: int|
                            {
                                &&& 0 <= k < raws.len()
                                &&& #[trigger] pushed(parse, raws, k, old_items, new_items)
                                &&& converts(parse, raws[k], Err(m))
                                &&& after.lands(
                                    (if k < before.unclaimed_order().len() {
                                        declared
                                    } else {
                                        emptied
                                    }).fail(ErrorView::PositionalConstructionError(name, m@)),
                                )
                            }
                    },
                    Some(Error::MissingPositional(t)) => {
                        &&& required
                        &&& raws.len() == 0
                        &&& t@ == name + "..."@
                        &&& new_items == old_items
                        &&& after.lands(emptied.fail(ErrorView::MissingPositional(t@)))
                    },
                    Some(_) => false,
                }
            }
        },
    }
}

/// One more text converted and appended: where `target` holds the first
/// `k` of `raws` converted, and `parse` turns the text at `k` of `longer`,
/// which agrees with `raws` before `k`, into `v`, then `target` with `v`
/// behind it holds the first `k + 1` of `longer` converted.
pub proof fn lemma_pushed_one_more<T, F: Fn(&str) -> Result<T, String>>(
    parse: F,
    raws: Seq<Seq<char>>,
    longer: Seq<Seq<char>>,
    k: int,
    before: Seq<T>,
    target: Seq<T>,
    v: T,
)
    requires
        pushed(parse, raws, k, before, target),
        0 <= k < longer.len(),
        forall|j: int| 0 <= j < k ==> longer[j] == raws[j],
        converts(parse, longer[k], Ok(v)),
    ensures
        pushed(parse, longer, k + 1, before, target.push(v)),
{
    let after = target.push(v);
    assert(after.take(before.len() as int) =~= target.take(before.len() as int));
    assert forall|j: int| 0 <= j < k + 1 implies converts(
        parse,
        #[trigger] longer[j],
        Ok(after[before.len() + j]),
    ) by {
        if j < k {
            assert(longer[j] == raws[j]);
            assert(after[before.len() + j] == target[before.len() + j]);
        }
    }
}

/// What holds of the first `k` of some texts holds of the first `k` of any
/// texts that agree with them so far.
pub proof fn lemma_pushed_of_a_prefix<T, F: Fn(&str) -> Result<T, String>>(
    parse: F,
    raws: Seq<Seq<char>>,
    longer: Seq<Seq<char>>,
    k: int,
    before: Seq<T>,
    target: Seq<T>,
)
    requires
        pushed(parse, raws, k, before, target),
        forall|j: int| 0 <= j < k ==> longer[j] == raws[j],
    ensures
        pushed(parse, longer, k, before, target),
{
    assert forall|j: int| 0 <= j < k implies converts(
        parse,
        #[trigger] longer[j],
        Ok(target[before.len() + j]),
    ) by {
        assert(longer[j] == raws[j]);
    }
}

} // verus!
