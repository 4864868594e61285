//! The help schema: what the declarations register while help is wanted,
//! and the texts made from it.

use vstd::prelude::*;
use vstd::string::StrSliceExecFns;
use vstd::string::StringExecFns;
use crate::errors::Error;
use crate::text::{alphabetic, char_is_alphabetic, pad, string_push};

verus! {

pub const LEFT_PAD_LENGTH: usize = 4;

pub const MID_PAD_LENGTH: usize = 8;

/// `n`, held to what a `usize` can express.
pub open spec fn clip(n: nat) -> nat {
    if n <= usize::MAX {
        n
    } else {
        usize::MAX as nat
    }
}

pub open spec fn text_of(o: Option<&'static str>) -> Option<Seq<char>> {
    match o {
        Some(s) => Some(s@),
        None => None,
    }
}

pub open spec fn string_of(o: Option<String>) -> Option<Seq<char>> {
    match o {
        Some(s) => Some(s@),
        None => None,
    }
}

/// The views of the items of `s`, in order.
pub open spec fn views<T: View>(s: Seq<T>) -> Seq<T::V> {
    Seq::new(s.len(), |i: int| s[i]@)
}

/// An option has a printable name where its short code is alphabetic or it
/// has a long name.
pub open spec fn nameable(short: char, long: Seq<char>) -> bool {
    alphabetic(short) || long.len() > 0
}

/// How an option is written: `-s, --long`, `-s` or `--long`, the last behind
/// four spaces where it has to line up with short codes.
pub open spec fn arg_text(short: char, long: Seq<char>, prefix_long: bool) -> Seq<char> {
    if alphabetic(short) && long.len() > 0 {
        seq!['-', short, ',', ' ', '-', '-'] + long
    } else if alphabetic(short) {
        seq!['-', short]
    } else if prefix_long {
        seq![' ', ' ', ' ', ' ', '-', '-'] + long
    } else {
        seq!['-', '-'] + long
    }
}

/// The width of the column that `arg_text` needs when long names line up.
pub open spec fn arg_text_len(short: char, long: Seq<char>) -> nat {
    if alphabetic(short) && long.len() == 0 {
        2
    } else {
        6 + long.len()
    }
}

/// The name of an option as it is written in messages and in the help.
pub fn arg_string(short: char, long: &'static str, prefix_long: bool) -> (r: String)
    requires
        nameable(short, long@),
    ensures
        r@ == arg_text(short, long@, prefix_long),
{
    let alpha = char_is_alphabetic(short);
    let has_long = long.unicode_len() > 0;
    let mut s = String::new();
    if alpha {
        string_push(&mut s, '-');
        string_push(&mut s, short);
        if has_long {
            string_push(&mut s, ',');
            string_push(&mut s, ' ');
            string_push(&mut s, '-');
            string_push(&mut s, '-');
            s.append(long);
        }
    } else {
        if prefix_long {
            string_push(&mut s, ' ');
            string_push(&mut s, ' ');
            string_push(&mut s, ' ');
            string_push(&mut s, ' ');
        }
        string_push(&mut s, '-');
        string_push(&mut s, '-');
        s.append(long);
    }
    assert(s@ =~= arg_text(short, long@, prefix_long));
    s
}

/// The width of `arg_string(short, long, true)`, without building it.
pub fn arg_string_len(short: char, long: &'static str) -> (r: usize)
    requires
        nameable(short, long@),
    ensures
        r == clip(arg_text_len(short, long@)),
{
    let n = long.unicode_len();
    if char_is_alphabetic(short) && n == 0 {
        2
    } else {
        n.saturating_add(6)
    }
}

/// The width that `arg_string_len` gives is the length of the text that
/// `arg_string` builds with its long name lined up.
pub proof fn lemma_arg_text_len(short: char, long: Seq<char>)
    requires
        nameable(short, long),
    ensures
        arg_text(short, long, true).len() == arg_text_len(short, long),
{
}

/// The name of an option, or nothing where it has none that can be printed.
pub open spec fn option_name(short: char, long: Seq<char>) -> Seq<char> {
    if nameable(short, long) {
        arg_text(short, long, false)
    } else {
        Seq::empty()
    }
}

/// The name of an option for a message; empty where the option has neither
/// an alphabetic short code nor a long name.
pub fn option_label(short: char, long: &'static str) -> (r: String)
    ensures
        r@ == option_name(short, long@),
{
    if char_is_alphabetic(short) || long.unicode_len() > 0 {
        arg_string(short, long, false)
    } else {
        String::new()
    }
}


/// One option as the help shows it.
pub struct Argument {
    pub short: char,
    pub long: &'static str,
    pub desc: &'static str,
    pub label: Option<&'static str>,
    pub default: Option<String>,
    pub required: bool,
}

pub struct ArgumentView {
    pub short: char,
    pub long: Seq<char>,
    pub desc: Seq<char>,
    pub label: Option<Seq<char>>,
    pub default: Option<Seq<char>>,
    pub required: bool,
}

impl View for Argument {
    type V = ArgumentView;

    open spec fn view(&self) -> ArgumentView {
        ArgumentView {
            short: self.short,
            long: self.long@,
            desc: self.desc@,
            label: text_of(self.label),
            default: string_of(self.default),
            required: self.required,
        }
    }
}

impl ArgumentView {
    pub open spec fn printable(self) -> bool {
        nameable(self.short, self.long)
    }

    /// The name of the option and, behind a space, its value label.
    pub open spec fn left_text(self) -> Seq<char> {
        match self.label {
            Some(l) => arg_text(self.short, self.long, true) + seq![' '] + l,
            None => arg_text(self.short, self.long, true),
        }
    }

    /// The width of the left column that this option needs; none where it
    /// is not printed.
    pub open spec fn left_len(self) -> nat {
        if !self.printable() {
            0
        } else {
            match self.label {
                Some(l) => arg_text_len(self.short, self.long) + 1 + l.len(),
                None => arg_text_len(self.short, self.long),
            }
        }
    }
}

impl Argument {
    pub fn new(
        short: char,
        long: &'static str,
        desc: &'static str,
        label: Option<&'static str>,
        default: Option<String>,
        required: bool,
    ) -> (r: Argument)
        ensures
            r@ == (ArgumentView {
                short,
                long: long@,
                desc: desc@,
                label: text_of(label),
                default: string_of(default),
                required,
            }),
    {
        Argument { short, long, desc, label, default, required }
    }

    pub fn should_print(&self) -> (r: bool)
        ensures
            r == self@.printable(),
    {
        char_is_alphabetic(self.short) || self.long.unicode_len() > 0
    }

    pub fn arg_string(&self) -> (r: String)
        requires
            self@.printable(),
        ensures
            r@ == self@.left_text(),
    {
        let mut s = arg_string(self.short, self.long, true);
        match self.label {
            Some(l) => {
                string_push(&mut s, ' ');
                s.append(l);
            },
            None => {},
        }
        s
    }

    pub fn left_len(&self) -> (r: usize)
        ensures
            r == clip(self@.left_len()),
    {
        if !self.should_print() {
            return 0;
        }
        let base = arg_string_len(self.short, self.long);
        match self.label {
            Some(l) => base.saturating_add(1).saturating_add(l.unicode_len()),
            None => base,
        }
    }
}

/// One subcommand that can be chosen at the current level.
pub struct Subcommand {
    pub name: &'static str,
    pub desc: &'static str,
}

pub struct SubcommandView {
    pub name: Seq<char>,
    pub desc: Seq<char>,
}

impl View for Subcommand {
    type V = SubcommandView;

    open spec fn view(&self) -> SubcommandView {
        SubcommandView { name: self.name@, desc: self.desc@ }
    }
}

impl Subcommand {
    pub fn new(name: &'static str, desc: &'static str) -> (r: Subcommand)
        ensures
            r@ == (SubcommandView { name: name@, desc: desc@ }),
    {
        Subcommand { name, desc }
    }

    pub fn should_print(&self) -> (r: bool)
        ensures
            r == (self@.name.len() > 0),
    {
        self.name.unicode_len() > 0
    }

    pub fn left_len(&self) -> (r: usize)
        ensures
            r == self@.name.len(),
    {
        self.name.unicode_len()
    }
}

/// One positional as the help shows it.
pub struct Positional {
    pub name: &'static str,
    pub desc: &'static str,
    pub default: Option<String>,
    pub required: bool,
    pub variadic: bool,
}

pub struct PositionalView {
    pub name: Seq<char>,
    pub desc: Seq<char>,
    pub default: Option<Seq<char>>,
    pub required: bool,
    pub variadic: bool,
}

impl View for Positional {
    type V = PositionalView;

    open spec fn view(&self) -> PositionalView {
        PositionalView {
            name: self.name@,
            desc: self.desc@,
            default: string_of(self.default),
            required: self.required,
            variadic: self.variadic,
        }
    }
}

impl PositionalView {
    /// The name, with three dots behind it where the positional is variadic.
    pub open spec fn left_text(self) -> Seq<char> {
        if self.variadic {
            self.name + seq!['.', '.', '.']
        } else {
            self.name
        }
    }
}

impl Positional {
    pub fn new(
        name: &'static str,
        desc: &'static str,
        default: Option<String>,
        required: bool,
        variadic: bool,
    ) -> (r: Positional)
        ensures
            r@ == (PositionalView {
                name: name@,
                desc: desc@,
                default: string_of(default),
                required,
                variadic,
            }),
    {
        Positional { name, desc, default, required, variadic }
    }

    pub fn should_print(&self) -> (r: bool)
        ensures
            r == (self@.name.len() > 0),
    {
        self.name.unicode_len() > 0
    }

    pub fn left_len(&self) -> (r: usize)
        ensures
            r == clip(self@.left_text().len()),
    {
        let n = self.name.unicode_len();
        if self.variadic {
            n.saturating_add(3)
        } else {
            n
        }
    }
}

/// A named section of options.
pub struct Group {
    pub name: &'static str,
    pub desc: &'static str,
    pub opts: Vec<Argument>,
}

pub struct GroupView {
    pub name: Seq<char>,
    pub desc: Seq<char>,
    pub opts: Seq<ArgumentView>,
}

impl View for Group {
    type V = GroupView;

    open spec fn view(&self) -> GroupView {
        GroupView { name: self.name@, desc: self.desc@, opts: views(self.opts@) }
    }
}

impl Group {
    pub fn new(name: &'static str, desc: &'static str) -> (r: Group)
        ensures
            r@ == (GroupView { name: name@, desc: desc@, opts: Seq::empty() }),
    {
        let r = Group { name, desc, opts: Vec::new() };
        assert(r@.opts =~= Seq::empty());
        r
    }

    pub fn should_print(&self) -> (r: bool)
        ensures
            r == (self@.name.len() > 0 && self@.opts.len() > 0),
    {
        self.name.unicode_len() > 0 && self.opts.len() > 0
    }
}

/// What the first line of the help says of the application.
pub struct App {
    pub name: &'static str,
    pub short_desc: &'static str,
    pub long_desc: &'static str,
    pub version: &'static str,
}

pub struct AppView {
    pub name: Seq<char>,
    pub short_desc: Seq<char>,
    pub long_desc: Seq<char>,
    pub version: Seq<char>,
}

impl View for App {
    type V = AppView;

    open spec fn view(&self) -> AppView {
        AppView {
            name: self.name@,
            short_desc: self.short_desc@,
            long_desc: self.long_desc@,
            version: self.version@,
        }
    }
}

impl App {
    pub fn empty() -> (r: App)
        ensures
            r@ == (AppView { name: ""@, short_desc: ""@, long_desc: ""@, version: ""@ }),
    {
        App::new("", "", "", "")
    }

    pub fn new(
        name: &'static str,
        short: &'static str,
        long: &'static str,
        vers: &'static str,
    ) -> (r: App)
        ensures
            r@ == (AppView { name: name@, short_desc: short@, long_desc: long@, version: vers@ }),
    {
        App { name, short_desc: short, long_desc: long, version: vers }
    }

    pub fn should_print(&self) -> (r: bool)
        ensures
            r == (self@.name.len() > 0),
    {
        self.name.unicode_len() > 0
    }
}


/// Everything registered for the help, as plain values.
pub struct Schema {
    pub app: AppView,
    /// The subcommands committed to so far, outermost first.
    pub path: Seq<Seq<char>>,
    /// The subcommands offered at the current level.
    pub subs: Seq<SubcommandView>,
    /// The groups; one of a name that is already there takes its place.
    pub groups: Seq<GroupView>,
    pub opts: Seq<ArgumentView>,
    pub positionals: Seq<PositionalView>,
    /// The widest left column asked for so far.
    pub longest_left: nat,
}

/// The first group from `from` on that is not ordered before `name`.
pub open spec fn slot_from(groups: Seq<GroupView>, name: Seq<char>, from: int) -> int
    decreases groups.len() - from,
{
    if from < 0 || from >= groups.len() {
        groups.len() as int
    } else if !crate::text::lex_lt(groups[from].name, name) {
        from
    } else {
        slot_from(groups, name, from + 1)
    }
}

/// The first group from `from` on that is called `name`.
pub open spec fn named_from(groups: Seq<GroupView>, name: Seq<char>, from: int) -> Option<int>
    decreases groups.len() - from,
{
    if from < 0 || from >= groups.len() {
        None
    } else if groups[from].name == name {
        Some(from)
    } else {
        named_from(groups, name, from + 1)
    }
}

/// The groups stand in the order of their names, none of which occurs
/// twice.
pub open spec fn in_order(groups: Seq<GroupView>) -> bool {
    forall|a: int, b: int|
        0 <= a < b < groups.len() ==> crate::text::lex_lt(
            #[trigger] groups[a].name,
            #[trigger] groups[b].name,
        )
}

impl Schema {
    /// The schema is one that registering can lead to: its groups stand in
    /// the order of their names, and no name occurs twice.
    pub open spec fn wf(self) -> bool {
        in_order(self.groups)
    }

    pub open spec fn empty(app: AppView) -> Schema {
        Schema {
            app,
            path: Seq::empty(),
            subs: Seq::empty(),
            groups: Seq::empty(),
            opts: Seq::empty(),
            positionals: Seq::empty(),
            longest_left: 0,
        }
    }

    /// The schema with room in its left column for a text `n` wide.
    pub open spec fn widen(self, n: nat) -> Schema {
        Schema {
            longest_left: if clip(n) > self.longest_left {
                clip(n)
            } else {
                self.longest_left
            },
            ..self
        }
    }

    /// Entering a subcommand: the choice is recorded, its descriptions
    /// replace the application's, and the subcommands offered so far, which
    /// were its siblings, are forgotten.
    pub open spec fn new_level(self, name: Seq<char>, desc: Seq<char>, long_desc: Seq<char>)
        -> Schema {
        Schema {
            app: AppView { short_desc: desc, long_desc, ..self.app },
            path: self.path.push(name),
            subs: Seq::empty(),
            ..self
        }
    }

    pub open spec fn add_subcommand(self, sub: SubcommandView) -> Schema {
        Schema { subs: self.subs.push(sub), ..self.widen(sub.name.len()) }
    }

    /// A new, empty group at its place in the order of names; a group of
    /// that name that was there before is replaced.
    pub open spec fn add_group(self, name: Seq<char>, desc: Seq<char>) -> Schema {
        let g = GroupView { name, desc, opts: Seq::empty() };
        let k = slot_from(self.groups, name, 0);
        if k < self.groups.len() && self.groups[k].name == name {
            Schema { groups: self.groups.update(k, g), ..self }
        } else {
            Schema { groups: self.groups.insert(k, g), ..self }
        }
    }

    pub open spec fn has_group(self, name: Seq<char>) -> bool {
        named_from(self.groups, name, 0) is Some
    }

    /// An option, filed under the group named or, with none named, under
    /// the general options. The column is widened before the group is
    /// looked up, so also where there is no such group.
    pub open spec fn add_arg(self, opt: ArgumentView, group: Option<Seq<char>>) -> (Schema, bool) {
        let wide = self.widen(opt.left_len());
        match group {
            None => (Schema { opts: wide.opts.push(opt), ..wide }, true),
            Some(name) => match named_from(wide.groups, name, 0) {
                Some(k) => {
                    let g = wide.groups[k];
                    (
                        Schema {
                            groups: wide.groups.update(
                                k,
                                GroupView { opts: g.opts.push(opt), ..g },
                            ),
                            ..wide
                        },
                        true,
                    )
                },
                None => (wide, false),
            },
        }
    }

    pub open spec fn add_positional(self, p: PositionalView) -> Schema {
        Schema { positionals: self.positionals.push(p), ..self.widen(p.left_text().len()) }
    }
}

/// A group that is called `name` is found.
pub proof fn lemma_named_found(groups: Seq<GroupView>, name: Seq<char>, from: int, at: int)
    requires
        0 <= from <= at < groups.len(),
        groups[at].name == name,
    ensures
        named_from(groups, name, from) is Some,
        from <= named_from(groups, name, from)->0 <= at,
        groups[named_from(groups, name, from)->0].name == name,
    decreases at - from,
{
    if groups[from].name != name {
        lemma_named_found(groups, name, from + 1, at);
    }
}

/// The group that is found is called `name`.
pub proof fn lemma_named_is_named(groups: Seq<GroupView>, name: Seq<char>, from: int)
    requires
        0 <= from,
        named_from(groups, name, from) is Some,
    ensures
        from <= named_from(groups, name, from)->0 < groups.len(),
        groups[named_from(groups, name, from)->0].name == name,
    decreases groups.len() - from,
{
    if from < groups.len() && groups[from].name != name {
        lemma_named_is_named(groups, name, from + 1);
    }
}

/// The place that `slot_from` gives lies within the groups or at their end.
pub proof fn lemma_slot_bounds(groups: Seq<GroupView>, name: Seq<char>, from: int)
    requires
        0 <= from <= groups.len(),
    ensures
        from <= slot_from(groups, name, from) <= groups.len(),
    decreases groups.len() - from,
{
    if from < groups.len() && crate::text::lex_lt(groups[from].name, name) {
        lemma_slot_bounds(groups, name, from + 1);
    }
}

/// Registering anything keeps the groups that are there, and registering a
/// group makes it one of them.
pub proof fn lemma_groups_stay(s: Schema, name: Seq<char>)
    requires
        s.has_group(name),
    ensures
        forall|a: ArgumentView, g: Option<Seq<char>>| #[trigger] s.add_arg(a, g).0.has_group(name),
        forall|n: Seq<char>, d: Seq<char>| #[trigger] s.add_group(n, d).has_group(name),
        forall|sub: SubcommandView| #[trigger] s.add_subcommand(sub).has_group(name),
        forall|p: PositionalView| #[trigger] s.add_positional(p).has_group(name),
        forall|n: Seq<char>, d: Seq<char>, l: Seq<char>| #[trigger]
            s.new_level(n, d, l).has_group(name),
{
    lemma_named_is_named(s.groups, name, 0);
    let at = named_from(s.groups, name, 0)->0;
    assert forall|a: ArgumentView, g: Option<Seq<char>>| #[trigger]
        s.add_arg(a, g).0.has_group(name) by {
        let after = s.add_arg(a, g).0;
        if g is Some && named_from(s.groups, g->0, 0) is Some {
            lemma_named_is_named(s.groups, g->0, 0);
        }
        assert(after.groups.len() == s.groups.len());
        assert(after.groups[at].name == name);
        lemma_named_found(after.groups, name, 0, at);
    }
    assert forall|n: Seq<char>, d: Seq<char>| #[trigger] s.add_group(n, d).has_group(name) by {
        let after = s.add_group(n, d);
        lemma_slot_bounds(s.groups, n, 0);
        let k = slot_from(s.groups, n, 0);
        if k < s.groups.len() && s.groups[k].name == n {
            assert(after.groups[at].name == name);
            lemma_named_found(after.groups, name, 0, at);
        } else if at < k {
            assert(after.groups[at].name == name);
            lemma_named_found(after.groups, name, 0, at);
        } else {
            assert(after.groups[at + 1].name == name);
            lemma_named_found(after.groups, name, 0, at + 1);
        }
    }
}

/// Every group before the place that `slot_from` gives is ordered before
/// `name`.
pub proof fn lemma_slot_parts(groups: Seq<GroupView>, name: Seq<char>, from: int, j: int)
    requires
        0 <= from <= j < slot_from(groups, name, from),
    ensures
        crate::text::lex_lt(groups[j].name, name),
        slot_from(groups, name, from) < groups.len() ==> !crate::text::lex_lt(
            groups[slot_from(groups, name, from)].name,
            name,
        ),
    decreases groups.len() - from,
{
    lemma_slot_bounds(groups, name, from);
    if from < groups.len() && crate::text::lex_lt(groups[from].name, name) {
        if j > from {
            lemma_slot_parts(groups, name, from + 1, j);
        } else {
            lemma_slot_end(groups, name, from + 1);
        }
    }
}

/// The group at the place that `slot_from` gives is not ordered before
/// `name`.
pub proof fn lemma_slot_end(groups: Seq<GroupView>, name: Seq<char>, from: int)
    requires
        0 <= from <= groups.len(),
    ensures
        slot_from(groups, name, from) < groups.len() ==> !crate::text::lex_lt(
            groups[slot_from(groups, name, from)].name,
            name,
        ),
    decreases groups.len() - from,
{
    if from < groups.len() && crate::text::lex_lt(groups[from].name, name) {
        lemma_slot_end(groups, name, from + 1);
    }
}

/// Registering keeps the groups in the order of their names, with no name
/// twice.
pub proof fn lemma_registering_keeps_order(s: Schema)
    requires
        s.wf(),
    ensures
        forall|a: ArgumentView, g: Option<Seq<char>>| #[trigger] s.add_arg(a, g).0.wf(),
        forall|n: Seq<char>, d: Seq<char>| #[trigger] s.add_group(n, d).wf(),
        forall|sub: SubcommandView| #[trigger] s.add_subcommand(sub).wf(),
        forall|p: PositionalView| #[trigger] s.add_positional(p).wf(),
        forall|n: Seq<char>, d: Seq<char>, l: Seq<char>| #[trigger] s.new_level(n, d, l).wf(),
{
    assert forall|a: ArgumentView, g: Option<Seq<char>>| #[trigger] s.add_arg(a, g).0.wf() by {
        let after = s.add_arg(a, g).0;
        if g is Some && named_from(s.groups, g->0, 0) is Some {
            lemma_named_is_named(s.groups, g->0, 0);
        }
        assert forall|x: int, y: int| 0 <= x < y < after.groups.len() implies crate::text::lex_lt(
            #[trigger] after.groups[x].name,
            #[trigger] after.groups[y].name,
        ) by {
            assert(after.groups[x].name == s.groups[x].name);
            assert(after.groups[y].name == s.groups[y].name);
        }
    }
    assert forall|n: Seq<char>, d: Seq<char>| #[trigger] s.add_group(n, d).wf() by {
        let after = s.add_group(n, d);
        lemma_slot_bounds(s.groups, n, 0);
        lemma_slot_end(s.groups, n, 0);
        let k = slot_from(s.groups, n, 0);
        if k < s.groups.len() && s.groups[k].name == n {
            assert forall|x: int, y: int|
                0 <= x < y < after.groups.len() implies crate::text::lex_lt(
                #[trigger] after.groups[x].name,
                #[trigger] after.groups[y].name,
            ) by {
                assert(after.groups[x].name == s.groups[x].name);
                assert(after.groups[y].name == s.groups[y].name);
            }
        } else {
            assert forall|x: int, y: int|
                0 <= x < y < after.groups.len() implies crate::text::lex_lt(
                #[trigger] after.groups[x].name,
                #[trigger] after.groups[y].name,
            ) by {
                if y < k {
                    assert(after.groups[x].name == s.groups[x].name);
                    assert(after.groups[y].name == s.groups[y].name);
                } else if y == k {
                    lemma_slot_parts(s.groups, n, 0, x);
                } else if x < k {
                    lemma_slot_parts(s.groups, n, 0, x);
                    lemma_below_the_slot(s.groups, n, k, y - 1);
                    crate::text::lemma_lex_transitive(s.groups[x].name, n, s.groups[y - 1].name);
                } else if x == k {
                    lemma_below_the_slot(s.groups, n, k, y - 1);
                } else {
                    assert(after.groups[x].name == s.groups[x - 1].name);
                    assert(after.groups[y].name == s.groups[y - 1].name);
                }
            }
        }
    }
}

/// Where the groups stand in order and the group at `k` is neither before
/// `name` nor called `name`, `name` is ordered before every group from `k`
/// on.
proof fn lemma_below_the_slot(groups: Seq<GroupView>, name: Seq<char>, k: int, j: int)
    requires
        in_order(groups),
        0 <= k <= j < groups.len(),
        !crate::text::lex_lt(groups[k].name, name),
        groups[k].name != name,
    ensures
        crate::text::lex_lt(name, groups[j].name),
{
    crate::text::lemma_lex_total(groups[k].name, name);
    if j > k {
        crate::text::lemma_lex_transitive(name, groups[k].name, groups[j].name);
    }
}

/// A group is found by its name at no place but its own.
pub proof fn lemma_names_are_unique(groups: Seq<GroupView>, a: int, b: int)
    requires
        in_order(groups),
        0 <= a < groups.len(),
        0 <= b < groups.len(),
        groups[a].name == groups[b].name,
    ensures
        a == b,
{
    crate::text::lemma_lex_irreflexive(groups[a].name);
}

/// A group that was just registered is there.
pub proof fn lemma_group_added(s: Schema, name: Seq<char>, desc: Seq<char>)
    ensures
        s.add_group(name, desc).has_group(name),
{
    lemma_slot_bounds(s.groups, name, 0);
    let k = slot_from(s.groups, name, 0);
    let after = s.add_group(name, desc);
    assert(after.groups[k].name == name);
    lemma_named_found(after.groups, name, 0, k);
}

/// The store of what the help will show.
pub struct Printer {
    app: App,
    path: Vec<&'static str>,
    subs: Vec<Subcommand>,
    groups: Vec<Group>,
    opts: Vec<Argument>,
    positionals: Vec<Positional>,
    longest_left: usize,
}

pub open spec fn texts(s: Seq<&'static str>) -> Seq<Seq<char>> {
    Seq::new(s.len(), |i: int| s[i]@)
}

impl View for Printer {
    type V = Schema;

    closed spec fn view(&self) -> Schema {
        Schema {
            app: self.app@,
            path: texts(self.path@),
            subs: views(self.subs@),
            groups: views(self.groups@),
            opts: views(self.opts@),
            positionals: views(self.positionals@),
            longest_left: self.longest_left as nat,
        }
    }
}

impl Printer {
    pub fn new(app: App) -> (r: Printer)
        ensures
            r@ == Schema::empty(app@),
            r@.wf(),
    {
        let r = Printer {
            app,
            path: Vec::new(),
            subs: Vec::new(),
            groups: Vec::new(),
            opts: Vec::new(),
            positionals: Vec::new(),
            longest_left: 0,
        };
        assert(r@.path =~= Seq::empty());
        assert(r@.subs =~= Seq::empty());
        assert(r@.groups =~= Seq::empty());
        assert(r@.opts =~= Seq::empty());
        assert(r@.positionals =~= Seq::empty());
        r
    }

    pub fn new_level(&mut self, name: &'static str, desc: &'static str, long_desc: &'static str)
        ensures
            final(self)@ == old(self)@.new_level(name@, desc@, long_desc@),
            old(self)@.wf() ==> final(self)@.wf(),
    {
        self.subs.clear();
        self.path.push(name);
        self.app.short_desc = desc;
        self.app.long_desc = long_desc;
        assert(self@.path =~= old(self)@.path.push(name@));
        assert(self@.subs =~= Seq::empty());
    }

    fn calculate_longest(&mut self, width: usize)
        ensures
            final(self)@ == old(self)@.widen(width as nat),
            old(self)@.wf() ==> final(self)@.wf(),
    {
        if width > self.longest_left {
            self.longest_left = width;
        }
    }

    pub fn set_name(&mut self, name: &'static str)
        ensures
            final(self)@ == (Schema { app: AppView { name: name@, ..old(self)@.app }, ..old(self)@ }),
            old(self)@.wf() ==> final(self)@.wf(),
    {
        self.app.name = name;
    }

    pub fn set_version(&mut self, vers: &'static str)
        ensures
            final(self)@ == (Schema {
                app: AppView { version: vers@, ..old(self)@.app },
                ..old(self)@
            }),
            old(self)@.wf() ==> final(self)@.wf(),
    {
        self.app.version = vers;
    }

    pub fn set_short_desc(&mut self, desc: &'static str)
        ensures
            final(self)@ == (Schema {
                app: AppView { short_desc: desc@, ..old(self)@.app },
                ..old(self)@
            }),
            old(self)@.wf() ==> final(self)@.wf(),
    {
        self.app.short_desc = desc;
    }

    pub fn set_long_desc(&mut self, desc: &'static str)
        ensures
            final(self)@ == (Schema {
                app: AppView { long_desc: desc@, ..old(self)@.app },
                ..old(self)@
            }),
            old(self)@.wf() ==> final(self)@.wf(),
    {
        self.app.long_desc = desc;
    }

    pub fn add_subcommand(&mut self, sub: Subcommand)
        ensures
            final(self)@ == old(self)@.add_subcommand(sub@),
            old(self)@.wf() ==> final(self)@.wf(),
    {
        let width = sub.left_len();
        self.calculate_longest(width);
        self.subs.push(sub);
        assert(self@.subs =~= old(self)@.subs.push(sub@));
    }

    pub fn add_group(&mut self, name: &'static str, desc: &'static str) -> (r: Result<(), Error>)
        ensures
            r is Ok,
            final(self)@ == old(self)@.add_group(name@, desc@),
            old(self)@.wf() ==> final(self)@.wf(),
    {
        let mut k: usize = 0;
        while k < self.groups.len() && crate::text::str_before(self.groups[k].name, name)
            invariant
                k <= self.groups.len(),
                *self == *old(self),
                slot_from(self@.groups, name@, 0) == slot_from(self@.groups, name@, k as int),
            decreases self.groups.len() - k,
        {
            k = k + 1;
        }
        let g = Group::new(name, desc);
        if k < self.groups.len() && crate::text::str_equals(self.groups[k].name, name) {
            self.groups.set(k, g);
            assert(self@.groups =~= old(self)@.groups.update(k as int, g@));
        } else {
            self.groups.insert(k, g);
            assert(self@.groups =~= old(self)@.groups.insert(k as int, g@));
        }
        proof {
            if old(self)@.wf() {
                lemma_registering_keeps_order(old(self)@);
                assert(old(self)@.add_group(name@, desc@).wf());
            }
        }
        Ok(())
    }

    pub fn add_arg(&mut self, opt: Argument, grp: Option<&'static str>) -> (r: Result<(), Error>)
        ensures
            final(self)@ == old(self)@.add_arg(opt@, text_of(grp)).0,
            match r {
                Ok(_) => old(self)@.add_arg(opt@, text_of(grp)).1,
                Err(e) => !old(self)@.add_arg(opt@, text_of(grp)).1 && grp is Some
                    && e == Error::PrinterMissingGroup(grp->0),
            },
            old(self)@.wf() ==> final(self)@.wf(),
    {
        let width = opt.left_len();
        self.calculate_longest(width);
        let grpname = match grp {
            None => {
                self.opts.push(opt);
                assert(self@.opts =~= old(self)@.opts.push(opt@));
                return Ok(());
            },
            Some(n) => n,
        };
        let ghost wide = self@;
        let mut k: usize = 0;
        while k < self.groups.len() && !crate::text::str_equals(self.groups[k].name, grpname)
            invariant
                k <= self.groups.len(),
                self@ == wide,
                named_from(wide.groups, grpname@, 0) == named_from(wide.groups, grpname@, k as int),
            decreases self.groups.len() - k,
        {
            k = k + 1;
        }
        if k < self.groups.len() {
            let mut g = self.groups.remove(k);
            g.opts.push(opt);
            assert(g@.opts =~= wide.groups[k as int].opts.push(opt@));
            self.groups.insert(k, g);
            assert(self@.groups =~= wide.groups.update(k as int, g@));
            Ok(())
        } else {
            Err(Error::PrinterMissingGroup(grpname))
        }
    }

    pub fn add_positional(&mut self, p: Positional) -> (r: Result<(), Error>)
        ensures
            r is Ok,
            final(self)@ == old(self)@.add_positional(p@),
            old(self)@.wf() ==> final(self)@.wf(),
    {
        let width = p.left_len();
        self.calculate_longest(width);
        self.positionals.push(p);
        assert(self@.positionals =~= old(self)@.positionals.push(p@));
        Ok(())
    }
}


/// The four texts that the usage line is made of: the short codes and the
/// longer forms of the options that may be given and of those that must.
pub struct UsageParts {
    pub opt_shorts: Seq<char>,
    pub opt_longs: Seq<char>,
    pub req_shorts: Seq<char>,
    pub req_longs: Seq<char>,
}

/// `piece` behind `list`, parted from it by a space unless `list` is empty.
pub open spec fn spaced(list: Seq<char>, piece: Seq<char>) -> Seq<char> {
    if list.len() == 0 {
        piece
    } else {
        list + seq![' '] + piece
    }
}

impl ArgumentView {
    /// Whether the usage shows the option by its short code alone, to be
    /// glued to others; that is where the code is alphabetic and the option
    /// has no value label.
    pub open spec fn glued(self) -> bool {
        alphabetic(self.short) && self.label is None
    }

    /// How the usage shows the option: by its short code where that is
    /// alphabetic, else by its long name; with its value label behind it.
    pub open spec fn usage_piece(self) -> Seq<char> {
        if alphabetic(self.short) {
            match self.label {
                Some(l) => seq!['-', self.short, ' '] + l,
                None => seq![self.short],
            }
        } else {
            match self.label {
                Some(l) => seq!['-', '-'] + self.long + seq![' '] + l,
                None => seq!['-', '-'] + self.long,
            }
        }
    }
}

impl UsageParts {
    pub open spec fn empty() -> UsageParts {
        UsageParts {
            opt_shorts: Seq::empty(),
            opt_longs: Seq::empty(),
            req_shorts: Seq::empty(),
            req_longs: Seq::empty(),
        }
    }

    /// The texts with one more option.
    pub open spec fn with(self, o: ArgumentView) -> UsageParts {
        let piece = o.usage_piece();
        if o.required {
            if o.glued() {
                UsageParts { req_shorts: self.req_shorts + piece, ..self }
            } else {
                UsageParts { req_longs: spaced(self.req_longs, piece), ..self }
            }
        } else {
            if o.glued() {
                UsageParts { opt_shorts: self.opt_shorts + piece, ..self }
            } else {
                UsageParts { opt_longs: spaced(self.opt_longs, piece), ..self }
            }
        }
    }

    /// The texts for the options `os`, taken in order.
    pub open spec fn of(os: Seq<ArgumentView>) -> UsageParts
        decreases os.len(),
    {
        if os.len() == 0 {
            UsageParts::empty()
        } else {
            UsageParts::of(os.drop_last()).with(os.last())
        }
    }

    /// The options that may be given, in square brackets.
    pub open spec fn optional_text(self) -> Seq<char> {
        if self.opt_shorts.len() > 0 && self.opt_longs.len() > 0 {
            seq!['[', '-'] + self.opt_shorts + seq![' '] + self.opt_longs + seq![']']
        } else if self.opt_shorts.len() > 0 {
            seq!['[', '-'] + self.opt_shorts + seq![']']
        } else if self.opt_longs.len() > 0 {
            seq!['['] + self.opt_longs + seq![']']
        } else {
            Seq::empty()
        }
    }

    /// The options that must be given.
    pub open spec fn required_text(self) -> Seq<char> {
        if self.req_shorts.len() > 0 && self.req_longs.len() > 0 {
            seq!['-'] + self.req_shorts + seq![' '] + self.req_longs
        } else if self.req_shorts.len() > 0 {
            seq!['-'] + self.req_shorts
        } else {
            self.req_longs
        }
    }
}

/// The options of the first `k` groups, group by group.
pub open spec fn grouped(groups: Seq<GroupView>, k: int) -> Seq<ArgumentView>
    decreases k,
{
    if k <= 0 {
        Seq::empty()
    } else {
        grouped(groups, k - 1) + groups[k - 1].opts
    }
}

impl PositionalView {
    /// How the usage shows the positional: in square brackets unless it is
    /// required.
    pub open spec fn usage_piece(self) -> Seq<char> {
        if self.required {
            self.left_text()
        } else {
            seq!['['] + self.left_text() + seq![']']
        }
    }
}

/// How the usage shows the positionals `ps`, in order.
pub open spec fn positionals_text(ps: Seq<PositionalView>) -> Seq<char>
    decreases ps.len(),
{
    if ps.len() == 0 {
        Seq::empty()
    } else {
        spaced(positionals_text(ps.drop_last()), ps.last().usage_piece())
    }
}

/// `b` behind `a`, parted by a space where neither is empty.
pub open spec fn joined(a: Seq<char>, b: Seq<char>) -> Seq<char> {
    if a.len() == 0 {
        b
    } else if b.len() == 0 {
        a
    } else {
        a + seq![' '] + b
    }
}

impl Schema {
    /// Every option: the general ones, then those of the groups.
    pub open spec fn all_opts(self) -> Seq<ArgumentView> {
        self.opts + grouped(self.groups, self.groups.len() as int)
    }

    /// The usage line behind the name of the program: a mark where
    /// subcommands are offered, the options that may be given, those that
    /// must, and the positionals.
    pub open spec fn usage_text(self) -> Seq<char> {
        let parts = UsageParts::of(self.all_opts());
        let line = joined(
            joined(parts.optional_text(), parts.required_text()),
            positionals_text(self.positionals),
        );
        if self.subs.len() > 0 {
            "{subcommand} "@ + line
        } else {
            line
        }
    }
}

struct UsageAcc {
    opt_shorts: String,
    opt_longs: String,
    req_shorts: String,
    req_longs: String,
}

impl View for UsageAcc {
    type V = UsageParts;

    closed spec fn view(&self) -> UsageParts {
        UsageParts {
            opt_shorts: self.opt_shorts@,
            opt_longs: self.opt_longs@,
            req_shorts: self.req_shorts@,
            req_longs: self.req_longs@,
        }
    }
}

/// Appends `piece` to `list`, behind a space unless `list` is empty.
fn append_spaced(list: &mut String, piece: &str)
    ensures
        final(list)@ == spaced(old(list)@, piece@),
{
    if list.as_str().unicode_len() > 0 {
        string_push(list, ' ');
    }
    list.append(piece);
}

fn usage_piece(o: &Argument) -> (r: (String, bool))
    ensures
        r.0@ == o@.usage_piece(),
        r.1 == o@.glued(),
{
    let mut s = String::new();
    if char_is_alphabetic(o.short) {
        match o.label {
            Some(l) => {
                string_push(&mut s, '-');
                string_push(&mut s, o.short);
                string_push(&mut s, ' ');
                s.append(l);
                assert(s@ =~= o@.usage_piece());
                (s, false)
            },
            None => {
                string_push(&mut s, o.short);
                assert(s@ =~= o@.usage_piece());
                (s, true)
            },
        }
    } else {
        string_push(&mut s, '-');
        string_push(&mut s, '-');
        s.append(o.long);
        match o.label {
            Some(l) => {
                string_push(&mut s, ' ');
                s.append(l);
            },
            None => {},
        }
        assert(s@ =~= o@.usage_piece());
        (s, false)
    }
}

fn usage_add(acc: &mut UsageAcc, o: &Argument)
    ensures
        final(acc)@ == old(acc)@.with(o@),
{
    let (piece, glued) = usage_piece(o);
    if o.required {
        if glued {
            acc.req_shorts.append(piece.as_str());
        } else {
            append_spaced(&mut acc.req_longs, piece.as_str());
        }
    } else {
        if glued {
            acc.opt_shorts.append(piece.as_str());
        } else {
            append_spaced(&mut acc.opt_longs, piece.as_str());
        }
    }
}

/// Adds the options `os` to what `acc` holds for the options `before`.
fn usage_add_all(acc: &mut UsageAcc, os: &Vec<Argument>, Ghost(before): Ghost<Seq<ArgumentView>>)
    requires
        old(acc)@ == UsageParts::of(before),
    ensures
        final(acc)@ == UsageParts::of(before + views(os@)),
{
    let mut k: usize = 0;
    assert(before + views(os@).take(0) =~= before);
    while k < os.len()
        invariant
            k <= os.len(),
            acc@ == UsageParts::of(before + views(os@).take(k as int)),
        decreases os.len() - k,
    {
        usage_add(acc, &os[k]);
        proof {
            let now = before + views(os@).take(k + 1);
            assert(now.drop_last() =~= before + views(os@).take(k as int));
            assert(now.last() == os@[k as int]@);
        }
        k = k + 1;
    }
    assert(views(os@).take(os.len() as int) =~= views(os@));
}

fn joined_text(a: String, b: &str) -> (r: String)
    ensures
        r@ == joined(a@, b@),
{
    if a.as_str().unicode_len() == 0 {
        b.to_owned()
    } else if b.unicode_len() == 0 {
        a
    } else {
        let mut s = a;
        string_push(&mut s, ' ');
        s.append(b);
        s
    }
}

impl Printer {
    /// The usage line behind the name of the program.
    pub fn generate_usage(&self) -> (r: String)
        ensures
            r@ == self@.usage_text(),
    {
        let mut acc = UsageAcc {
            opt_shorts: String::new(),
            opt_longs: String::new(),
            req_shorts: String::new(),
            req_longs: String::new(),
        };
        assert(Seq::<ArgumentView>::empty() + views(self.opts@) =~= views(self.opts@));
        usage_add_all(&mut acc, &self.opts, Ghost(Seq::empty()));
        let mut g: usize = 0;
        assert(self@.opts + grouped(self@.groups, 0) =~= self@.opts);
        while g < self.groups.len()
            invariant
                g <= self.groups.len(),
                acc@ == UsageParts::of(self@.opts + grouped(self@.groups, g as int)),
            decreases self.groups.len() - g,
        {
            usage_add_all(
                &mut acc,
                &self.groups[g].opts,
                Ghost(self@.opts + grouped(self@.groups, g as int)),
            );
            assert(self@.opts + grouped(self@.groups, g as int) + views(self.groups@[g as int].opts@)
                =~= self@.opts + grouped(self@.groups, g + 1));
            g = g + 1;
        }
        let ghost parts = acc@;
        let mut opts = String::new();
        let has_opt_shorts = acc.opt_shorts.as_str().unicode_len() > 0;
        let has_opt_longs = acc.opt_longs.as_str().unicode_len() > 0;
        if has_opt_shorts || has_opt_longs {
            string_push(&mut opts, '[');
            if has_opt_shorts {
                string_push(&mut opts, '-');
                opts.append(acc.opt_shorts.as_str());
                if has_opt_longs {
                    string_push(&mut opts, ' ');
                }
            }
            opts.append(acc.opt_longs.as_str());
            string_push(&mut opts, ']');
        }
        assert(opts@ =~= parts.optional_text());
        let mut reqs = String::new();
        let has_req_shorts = acc.req_shorts.as_str().unicode_len() > 0;
        let has_req_longs = acc.req_longs.as_str().unicode_len() > 0;
        if has_req_shorts {
            string_push(&mut reqs, '-');
            reqs.append(acc.req_shorts.as_str());
            if has_req_longs {
                string_push(&mut reqs, ' ');
            }
        }
        reqs.append(acc.req_longs.as_str());
        assert(reqs@ =~= parts.required_text());
        let mut pos = String::new();
        let mut k: usize = 0;
        assert(self@.positionals.take(0) =~= Seq::<PositionalView>::empty());
        while k < self.positionals.len()
            invariant
                k <= self.positionals.len(),
                pos@ == positionals_text(self@.positionals.take(k as int)),
            decreases self.positionals.len() - k,
        {
            let p = &self.positionals[k];
            let mut piece = String::new();
            if !p.required {
                string_push(&mut piece, '[');
            }
            piece.append(p.name);
            if p.variadic {
                string_push(&mut piece, '.');
                string_push(&mut piece, '.');
                string_push(&mut piece, '.');
            }
            if !p.required {
                string_push(&mut piece, ']');
            }
            assert(piece@ =~= p@.usage_piece());
            append_spaced(&mut pos, piece.as_str());
            proof {
                let now = self@.positionals.take(k + 1);
                assert(now.drop_last() =~= self@.positionals.take(k as int));
                assert(now.last() == p@);
            }
            k = k + 1;
        }
        assert(self@.positionals.take(self.positionals.len() as int) =~= self@.positionals);
        let line = joined_text(joined_text(opts, reqs.as_str()), pos.as_str());
        if self.subs.len() > 0 {
            let mut s = "{subcommand} ".to_owned();
            s.append(line.as_str());
            s
        } else {
            line
        }
    }
}


/// `n` spaces.
pub open spec fn spaces(n: nat) -> Seq<char> {
    Seq::new(n, |i: int| ' ')
}

/// The spaces between a left column entry `used` wide and the description
/// beside it: what the entry lacks of the widest, and `extra` more.
pub open spec fn gap(longest: nat, used: nat, extra: nat) -> Seq<char> {
    spaces(
        clip(
            if longest >= used {
                (longest - used + extra) as nat
            } else {
                extra
            },
        ),
    )
}

/// What is said behind a description of a default and of being required.
pub open spec fn accessories(default: Option<Seq<char>>, required: bool) -> Seq<char> {
    match default {
        Some(d) => if required {
            " [required, default: "@ + d + seq![']']
        } else {
            " [default: "@ + d + seq![']']
        },
        None => if required {
            " [required]"@
        } else {
            Seq::empty()
        },
    }
}

impl ArgumentView {
    /// The line of the help for the option.
    pub open spec fn line(self, left_pad: nat, longest: nat) -> Seq<char> {
        spaces(left_pad) + self.left_text() + gap(longest, self.left_text().len(), 8) + self.desc
            + accessories(self.default, self.required) + seq!['\n']
    }
}

/// The lines of the help for those of the options `os` that can be printed.
pub open spec fn option_lines(os: Seq<ArgumentView>, left_pad: nat, longest: nat) -> Seq<char>
    decreases os.len(),
{
    if os.len() == 0 {
        Seq::empty()
    } else if os.last().printable() {
        option_lines(os.drop_last(), left_pad, longest) + os.last().line(left_pad, longest)
    } else {
        option_lines(os.drop_last(), left_pad, longest)
    }
}

impl SubcommandView {
    pub open spec fn line(self, longest: nat) -> Seq<char> {
        spaces(4) + self.name + gap(longest, self.name.len(), 8) + self.desc + seq!['\n']
    }
}

/// The lines of the help for those of the subcommands `subs` that have a
/// name.
pub open spec fn subcommand_lines(subs: Seq<SubcommandView>, longest: nat) -> Seq<char>
    decreases subs.len(),
{
    if subs.len() == 0 {
        Seq::empty()
    } else if subs.last().name.len() > 0 {
        subcommand_lines(subs.drop_last(), longest) + subs.last().line(longest)
    } else {
        subcommand_lines(subs.drop_last(), longest)
    }
}

impl PositionalView {
    pub open spec fn line(self, longest: nat) -> Seq<char> {
        spaces(4) + self.left_text() + gap(longest, self.left_text().len(), 8) + self.desc
            + accessories(self.default, self.required) + seq!['\n']
    }
}

/// The lines of the help for those of the positionals `ps` that have a name.
pub open spec fn positional_lines(ps: Seq<PositionalView>, longest: nat) -> Seq<char>
    decreases ps.len(),
{
    if ps.len() == 0 {
        Seq::empty()
    } else if ps.last().name.len() > 0 {
        positional_lines(ps.drop_last(), longest) + ps.last().line(longest)
    } else {
        positional_lines(ps.drop_last(), longest)
    }
}

impl GroupView {
    pub open spec fn printable(self) -> bool {
        self.name.len() > 0 && self.opts.len() > 0
    }

    /// The section of the help for the group: its heading, its options and
    /// an empty line.
    pub open spec fn block(self, longest: nat) -> Seq<char> {
        self.name + seq![':'] + gap(longest, self.name.len(), 11) + self.desc + seq!['\n']
            + option_lines(self.opts, 4, longest) + seq!['\n']
    }
}

/// The sections of the help for those of the groups that have a name and
/// an option.
pub open spec fn group_blocks(groups: Seq<GroupView>, longest: nat) -> Seq<char>
    decreases groups.len(),
{
    if groups.len() == 0 {
        Seq::empty()
    } else if groups.last().printable() {
        group_blocks(groups.drop_last(), longest) + groups.last().block(longest)
    } else {
        group_blocks(groups.drop_last(), longest)
    }
}

/// The names in `path`, each behind a space.
pub open spec fn path_text(path: Seq<Seq<char>>) -> Seq<char>
    decreases path.len(),
{
    if path.len() == 0 {
        Seq::empty()
    } else {
        path_text(path.drop_last()) + seq![' '] + path.last()
    }
}

impl Schema {
    /// The name of the program with the subcommands committed to.
    pub open spec fn display_name(self) -> Seq<char> {
        self.app.name + path_text(self.path)
    }

    /// The first line of the help and the empty line below it; nothing
    /// where the application has no name.
    pub open spec fn header(self) -> Seq<char> {
        if self.app.name.len() == 0 {
            Seq::empty()
        } else if self.app.version.len() == 0 {
            self.display_name() + seq!['\n', '\n']
        } else if self.app.short_desc.len() == 0 {
            self.display_name() + seq![' '] + self.app.version + seq!['\n', '\n']
        } else {
            self.display_name() + seq![' '] + self.app.version + seq![' ', '-', ' ']
                + self.app.short_desc + seq!['\n', '\n']
        }
    }

    pub open spec fn has_args(self) -> bool {
        self.all_opts().len() > 0 || self.positionals.len() > 0
    }

    /// The usage line and the empty line below it, where there is an option
    /// or a positional to show.
    pub open spec fn usage_block(self) -> Seq<char> {
        if self.has_args() {
            "usage: "@ + self.display_name() + seq![' '] + self.usage_text() + seq!['\n', '\n']
        } else {
            Seq::empty()
        }
    }

    pub open spec fn long_desc_block(self) -> Seq<char> {
        if self.app.long_desc.len() > 0 {
            self.app.long_desc + seq!['\n', '\n']
        } else {
            Seq::empty()
        }
    }

    pub open spec fn subcommands_block(self) -> Seq<char> {
        if self.subs.len() > 0 {
            "subcommands:\n"@ + subcommand_lines(self.subs, self.longest_left) + seq!['\n']
        } else {
            Seq::empty()
        }
    }

    pub open spec fn options_block(self) -> Seq<char> {
        if self.opts.len() > 0 {
            "options:\n"@ + option_lines(self.opts, 4, self.longest_left)
        } else {
            Seq::empty()
        }
    }

    pub open spec fn positionals_block(self) -> Seq<char> {
        if self.positionals.len() > 0 {
            "\npositionals:\n"@ + positional_lines(self.positionals, self.longest_left)
        } else {
            Seq::empty()
        }
    }

    /// The whole help: the header, the usage, the long description, the
    /// subcommands, the groups, the options and the positionals.
    pub open spec fn help_text(self) -> Seq<char> {
        self.header() + self.usage_block() + self.long_desc_block() + self.subcommands_block()
            + group_blocks(self.groups, self.longest_left) + self.options_block()
            + self.positionals_block() + seq!['\n']
    }
}

/// Appends the spaces between a left column entry and its description.
fn append_gap(s: &mut String, longest: usize, used: usize, extra: usize)
    ensures
        final(s)@ == old(s)@ + gap(longest as nat, used as nat, extra as nat),
{
    let n = if longest >= used {
        (longest - used).saturating_add(extra)
    } else {
        extra
    };
    pad(s, n);
}

fn append_accessories(s: &mut String, default: &Option<String>, required: bool)
    ensures
        final(s)@ == old(s)@ + accessories(string_of(*default), required),
{
    match default {
        Some(d) => {
            if required {
                s.append(" [required, default: ");
            } else {
                s.append(" [default: ");
            }
            s.append(d.as_str());
            string_push(s, ']');
            assert(s@ =~= old(s)@ + accessories(string_of(*default), required));
        },
        None => {
            if required {
                s.append(" [required]");
            } else {
                assert(s@ =~= old(s)@ + Seq::<char>::empty());
            }
        },
    }
}

fn append_option_line(s: &mut String, o: &Argument, left_pad: usize, longest: usize)
    requires
        o@.printable(),
    ensures
        final(s)@ == old(s)@ + o@.line(left_pad as nat, longest as nat),
{
    let left = o.arg_string();
    pad(s, left_pad);
    s.append(left.as_str());
    append_gap(s, longest, left.as_str().unicode_len(), 8);
    s.append(o.desc);
    append_accessories(s, &o.default, o.required);
    string_push(s, '\n');
    assert(s@ =~= old(s)@ + o@.line(left_pad as nat, longest as nat));
}

fn append_option_lines(s: &mut String, os: &Vec<Argument>, left_pad: usize, longest: usize)
    ensures
        final(s)@ == old(s)@ + option_lines(views(os@), left_pad as nat, longest as nat),
{
    let mut k: usize = 0;
    assert(views(os@).take(0) =~= Seq::<ArgumentView>::empty());
    assert(s@ =~= old(s)@ + Seq::<char>::empty());
    while k < os.len()
        invariant
            k <= os.len(),
            s@ == old(s)@ + option_lines(
                views(os@).take(k as int),
                left_pad as nat,
                longest as nat,
            ),
        decreases os.len() - k,
    {
        let ghost before = s@;
        proof {
            let now = views(os@).take(k + 1);
            assert(now.drop_last() =~= views(os@).take(k as int));
            assert(now.last() == os@[k as int]@);
        }
        if os[k].should_print() {
            append_option_line(s, &os[k], left_pad, longest);
            assert(s@ =~= old(s)@ + option_lines(
                views(os@).take(k + 1),
                left_pad as nat,
                longest as nat,
            ));
        }
        k = k + 1;
    }
    assert(views(os@).take(os.len() as int) =~= views(os@));
}

impl Printer {
    fn append_display_name(&self, s: &mut String)
        ensures
            final(s)@ == old(s)@ + self@.display_name(),
    {
        s.append(self.app.name);
        let mut k: usize = 0;
        assert(self@.path.take(0) =~= Seq::<Seq<char>>::empty());
        assert(s@ =~= old(s)@ + (self@.app.name + Seq::<char>::empty()));
        while k < self.path.len()
            invariant
                k <= self.path.len(),
                s@ == old(s)@ + (self@.app.name + path_text(self@.path.take(k as int))),
            decreases self.path.len() - k,
        {
            proof {
                let now = self@.path.take(k + 1);
                assert(now.drop_last() =~= self@.path.take(k as int));
                assert(now.last() == self.path@[k as int]@);
            }
            string_push(s, ' ');
            s.append(self.path[k]);
            k = k + 1;
            assert(s@ =~= old(s)@ + (self@.app.name + path_text(self@.path.take(k as int))));
        }
        assert(self@.path.take(self.path.len() as int) =~= self@.path);
    }

    fn append_header(&self, s: &mut String)
        ensures
            final(s)@ == old(s)@ + self@.header(),
    {
        if self.app.name.unicode_len() == 0 {
            assert(s@ =~= old(s)@ + Seq::<char>::empty());
            return ;
        }
        self.append_display_name(s);
        if self.app.version.unicode_len() > 0 {
            string_push(s, ' ');
            s.append(self.app.version);
            if self.app.short_desc.unicode_len() > 0 {
                string_push(s, ' ');
                string_push(s, '-');
                string_push(s, ' ');
                s.append(self.app.short_desc);
            }
        }
        string_push(s, '\n');
        string_push(s, '\n');
        assert(s@ =~= old(s)@ + self@.header());
    }

    fn append_subcommands(&self, s: &mut String)
        ensures
            final(s)@ == old(s)@ + subcommand_lines(self@.subs, self@.longest_left),
    {
        let mut k: usize = 0;
        assert(self@.subs.take(0) =~= Seq::<SubcommandView>::empty());
        assert(s@ =~= old(s)@ + Seq::<char>::empty());
        while k < self.subs.len()
            invariant
                k <= self.subs.len(),
                s@ == old(s)@ + subcommand_lines(self@.subs.take(k as int), self@.longest_left),
            decreases self.subs.len() - k,
        {
            proof {
                let now = self@.subs.take(k + 1);
                assert(now.drop_last() =~= self@.subs.take(k as int));
                assert(now.last() == self.subs@[k as int]@);
            }
            let sub = &self.subs[k];
            if sub.should_print() {
                let ghost before = s@;
                pad(s, 4);
                s.append(sub.name);
                append_gap(s, self.longest_left, sub.left_len(), 8);
                s.append(sub.desc);
                string_push(s, '\n');
                assert(s@ =~= before + sub@.line(self@.longest_left));
                assert(s@ =~= old(s)@ + subcommand_lines(
                    self@.subs.take(k + 1),
                    self@.longest_left,
                ));
            }
            k = k + 1;
        }
        assert(self@.subs.take(self.subs.len() as int) =~= self@.subs);
    }

    fn append_groups(&self, s: &mut String)
        ensures
            final(s)@ == old(s)@ + group_blocks(self@.groups, self@.longest_left),
    {
        let mut k: usize = 0;
        assert(self@.groups.take(0) =~= Seq::<GroupView>::empty());
        assert(s@ =~= old(s)@ + Seq::<char>::empty());
        while k < self.groups.len()
            invariant
                k <= self.groups.len(),
                s@ == old(s)@ + group_blocks(self@.groups.take(k as int), self@.longest_left),
            decreases self.groups.len() - k,
        {
            proof {
                let now = self@.groups.take(k + 1);
                assert(now.drop_last() =~= self@.groups.take(k as int));
                assert(now.last() == self.groups@[k as int]@);
            }
            let g = &self.groups[k];
            if g.should_print() {
                let ghost before = s@;
                s.append(g.name);
                string_push(s, ':');
                append_gap(s, self.longest_left, g.name.unicode_len(), 11);
                s.append(g.desc);
                string_push(s, '\n');
                append_option_lines(s, &g.opts, 4, self.longest_left);
                string_push(s, '\n');
                assert(s@ =~= before + g@.block(self@.longest_left));
                assert(s@ =~= old(s)@ + group_blocks(
                    self@.groups.take(k + 1),
                    self@.longest_left,
                ));
            }
            k = k + 1;
        }
        assert(self@.groups.take(self.groups.len() as int) =~= self@.groups);
    }

    fn append_positionals(&self, s: &mut String)
        ensures
            final(s)@ == old(s)@ + positional_lines(self@.positionals, self@.longest_left),
    {
        let mut k: usize = 0;
        assert(self@.positionals.take(0) =~= Seq::<PositionalView>::empty());
        assert(s@ =~= old(s)@ + Seq::<char>::empty());
        while k < self.positionals.len()
            invariant
                k <= self.positionals.len(),
                s@ == old(s)@ + positional_lines(
                    self@.positionals.take(k as int),
                    self@.longest_left,
                ),
            decreases self.positionals.len() - k,
        {
            proof {
                let now = self@.positionals.take(k + 1);
                assert(now.drop_last() =~= self@.positionals.take(k as int));
                assert(now.last() == self.positionals@[k as int]@);
            }
            let p = &self.positionals[k];
            if p.should_print() {
                let ghost before = s@;
                let mut left = p.name.to_owned();
                if p.variadic {
                    string_push(&mut left, '.');
                    string_push(&mut left, '.');
                    string_push(&mut left, '.');
                }
                assert(left@ =~= p@.left_text());
                pad(s, 4);
                s.append(left.as_str());
                append_gap(s, self.longest_left, left.as_str().unicode_len(), 8);
                s.append(p.desc);
                append_accessories(s, &p.default, p.required);
                string_push(s, '\n');
                assert(s@ =~= before + p@.line(self@.longest_left));
                assert(s@ =~= old(s)@ + positional_lines(
                    self@.positionals.take(k + 1),
                    self@.longest_left,
                ));
            }
            k = k + 1;
        }
        assert(self@.positionals.take(self.positionals.len() as int) =~= self@.positionals);
    }

    /// Whether any group holds an option.
    fn groups_hold_options(&self) -> (r: bool)
        ensures
            r == (grouped(self@.groups, self@.groups.len() as int).len() > 0),
    {
        let mut k: usize = 0;
        while k < self.groups.len()
            invariant
                k <= self.groups.len(),
                grouped(self@.groups, k as int).len() == 0,
            decreases self.groups.len() - k,
        {
            if self.groups[k].opts.len() > 0 {
                proof {
                    lemma_grouped_grows(self@.groups, k + 1, self@.groups.len() as int);
                }
                return true;
            }
            k = k + 1;
        }
        false
    }

    fn append_usage_block(&self, s: &mut String)
        ensures
            final(s)@ == old(s)@ + self@.usage_block(),
    {
        if self.opts.len() > 0 || self.positionals.len() > 0 || self.groups_hold_options() {
            s.append("usage: ");
            self.append_display_name(s);
            string_push(s, ' ');
            s.append(self.generate_usage().as_str());
            string_push(s, '\n');
            string_push(s, '\n');
            assert(s@ =~= old(s)@ + self@.usage_block());
        } else {
            assert(s@ =~= old(s)@ + Seq::<char>::empty());
        }
    }

    fn append_long_desc_block(&self, s: &mut String)
        ensures
            final(s)@ == old(s)@ + self@.long_desc_block(),
    {
        if self.app.long_desc.unicode_len() > 0 {
            s.append(self.app.long_desc);
            string_push(s, '\n');
            string_push(s, '\n');
            assert(s@ =~= old(s)@ + self@.long_desc_block());
        } else {
            assert(s@ =~= old(s)@ + Seq::<char>::empty());
        }
    }

    fn append_subcommands_block(&self, s: &mut String)
        ensures
            final(s)@ == old(s)@ + self@.subcommands_block(),
    {
        if self.subs.len() > 0 {
            s.append("subcommands:\n");
            self.append_subcommands(s);
            string_push(s, '\n');
            assert(s@ =~= old(s)@ + self@.subcommands_block());
        } else {
            assert(s@ =~= old(s)@ + Seq::<char>::empty());
        }
    }

    fn append_options_block(&self, s: &mut String)
        ensures
            final(s)@ == old(s)@ + self@.options_block(),
    {
        if self.opts.len() > 0 {
            s.append("options:\n");
            append_option_lines(s, &self.opts, 4, self.longest_left);
            assert(s@ =~= old(s)@ + self@.options_block());
        } else {
            assert(s@ =~= old(s)@ + Seq::<char>::empty());
        }
    }

    fn append_positionals_block(&self, s: &mut String)
        ensures
            final(s)@ == old(s)@ + self@.positionals_block(),
    {
        if self.positionals.len() > 0 {
            s.append("\npositionals:\n");
            self.append_positionals(s);
            assert(s@ =~= old(s)@ + self@.positionals_block());
        } else {
            assert(s@ =~= old(s)@ + Seq::<char>::empty());
        }
    }

    /// The whole help as one text, ready to be printed.
    pub fn help_text(&self) -> (r: String)
        ensures
            r@ == self@.help_text(),
    {
        let mut s = String::new();
        self.append_header(&mut s);
        assert(s@ =~= self@.header());
        self.append_usage_block(&mut s);
        self.append_long_desc_block(&mut s);
        self.append_subcommands_block(&mut s);
        self.append_groups(&mut s);
        self.append_options_block(&mut s);
        self.append_positionals_block(&mut s);
        string_push(&mut s, '\n');
        s
    }
}

/// The options of more groups are no fewer.
pub proof fn lemma_grouped_grows(groups: Seq<GroupView>, a: int, b: int)
    requires
        0 <= a <= b,
    ensures
        grouped(groups, a).len() <= grouped(groups, b).len(),
    decreases b - a,
{
    if a < b {
        lemma_grouped_grows(groups, a, b - 1);
    }
}

} // verus!
