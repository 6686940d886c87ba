//! The tag vocabulary as rules a person decides once. `rename A -> B` moves `A` and everything
//! below it to `B`, which is renaming a leaf, moving a branch and merging into a tag that is
//! already there, all at once. `delete A` takes `A` and everything below it away.
//!
//! The rules are applied in order to a photo's deepest tags, and what comes out is its new tag
//! set. A rule that could never do anything, or would take a tag back to where an earlier rule
//! moved it from, is refused when it is entered, with why.
//!
//! What the tree already shows - case twins, look-alikes, the `mixed` bucket - is offered as
//! [`Suggestion`]s, each one or two rules a click away.

use vstd::prelude::*;

use crate::browse::{
    carriers, carriers_of_any, children_of, count_of, lies_within, look_alikes_of, pair_views, parent_and_leaf,
    paths, tag_lists, twins_among, twins_of, within_is_a_partial_order, TagTree,
};
use crate::order::{
    in_order, in_order_is, increasing, insert, is_in_order, order_exists, sorted_set,
};
use crate::text::{
    after_start, chars, copy, cut_text, empty, found_at, holds, holds_char, join, joined,
    lemma_found_at, lowercase, lowercased, quotation, quoted, same, size, size_of, split,
    split_at_each, split_at_text, split_last, starts, strip_start, tight, trim, trim_all, trimmed,
    trimmed_all, view_opt, views,
};

verus! {

#[derive(Debug, Clone, PartialEq, Eq)]
pub enum Rule {
    Rename { from: String, to: String },
    Delete { path: String },
}

/// What a [`Rule`] says, its paths as characters.
#[verifier::ext_equal]
pub enum RuleView {
    Rename { from: Seq<char>, to: Seq<char> },
    Delete { path: Seq<char> },
}

impl View for Rule {
    type V = RuleView;

    open spec fn view(&self) -> RuleView {
        match *self {
            Rule::Rename { from, to } => RuleView::Rename { from: from@, to: to@ },
            Rule::Delete { path } => RuleView::Delete { path: path@ },
        }
    }
}

/// Where the `mixed` bucket's leaves are offered to go.
pub const MIXED: &'static str = "mixed";

pub const TOPICS: &'static str = "topics";

// ---- Paths -------------------------------------------------------------------------------------

/// The first of these levels that holds a `|`, if one does.
pub open spec fn first_barred(levels: Seq<Seq<char>>) -> Option<Seq<char>>
    decreases levels.len(),
{
    if levels.len() == 0 {
        None
    } else {
        match first_barred(levels.drop_last()) {
            Some(bad) => Some(bad),
            None => if levels.last().contains('|') {
                Some(levels.last())
            } else {
                None
            },
        }
    }
}

/// The levels of a typed path, each trimmed.
pub open spec fn typed_levels(text: Seq<char>) -> Seq<Seq<char>> {
    trimmed_all(split(trimmed(text), '/'))
}

pub open spec fn has_empty(levels: Seq<Seq<char>>) -> bool {
    exists|i: int| 0 <= i < levels.len() && (#[trigger] levels[i]).len() == 0
}

/// A tag path with every level trimmed, or why it cannot be one.
pub open spec fn path_of(text: Seq<char>) -> Result<Seq<char>, Seq<char>> {
    let levels = typed_levels(text);
    if has_empty(levels) {
        if trimmed(text).len() == 0 {
            Err("a tag needs a name"@)
        } else {
            Err(quotation(trimmed(text)) + " has an empty level"@)
        }
    } else {
        match first_barred(levels) {
            Some(bad) => Err(
                quotation(bad) + " has a | in it, which separates the levels of a tag"@,
            ),
            None => Ok(joined(levels, seq!['/'])),
        }
    }
}

/// A tag path with every level trimmed, or why it cannot be one.
pub fn path(text: &str) -> (tidy: Result<String, String>)
    ensures
        match tidy {
            Ok(tidy) => path_of(text@) == Ok::<Seq<char>, Seq<char>>(tidy@),
            Err(why) => path_of(text@) == Err::<Seq<char>, Seq<char>>(why@),
        },
{
    let whole = trim(text);
    let parts = split_at_each(&whole, '/');
    let levels = trim_all(&parts);
    let ghost all = typed_levels(text@);
    for i in 0..levels.len()
        invariant
            views(levels@) == all,
            all == typed_levels(text@),
            whole@ == trimmed(text@),
            forall|j: int| 0 <= j < i ==> (#[trigger] all[j]).len() > 0,
    {
        if empty(&levels[i]) {
            assert(all[i as int].len() == 0);
            if empty(&whole) {
                return Err(copy("a tag needs a name"));
            }
            return Err(quoted(&whole).concat(" has an empty level"));
        }
    }
    for i in 0..levels.len()
        invariant
            views(levels@) == all,
            all == typed_levels(text@),
            !has_empty(all),
            first_barred(all.take(i as int)) is None,
    {
        assert(all.take(i + 1).drop_last() =~= all.take(i as int));
        assert(all.take(i + 1).last() == levels@[i as int]@);
        if holds_char(&levels[i], '|') {
            proof {
                lemma_barred_stays(all, i + 1);
            }
            return Err(
                quoted(&levels[i]).concat(
                    " has a | in it, which separates the levels of a tag",
                ),
            );
        }
    }
    proof {
        assert(all.take(all.len() as int) =~= all);
        reveal_strlit("/");
        assert("/"@ =~= seq!['/']);
    }
    Ok(join(&levels, "/"))
}

proof fn lemma_barred_stays(levels: Seq<Seq<char>>, i: int)
    requires
        0 <= i <= levels.len(),
        first_barred(levels.take(i)) is Some,
    ensures
        first_barred(levels) == first_barred(levels.take(i)),
    decreases levels.len() - i,
{
    if i < levels.len() {
        assert(levels.take(i + 1).drop_last() =~= levels.take(i));
        lemma_barred_stays(levels, i + 1);
    } else {
        assert(levels.take(i) =~= levels);
    }
}

/// Whether `path` is `branch` or below it.
pub fn within(path: &str, branch: &str) -> (yes: bool)
    ensures
        yes == lies_within(path@, branch@),
{
    match strip_start(path, branch) {
        Some(rest) => {
            let list = chars(&rest);
            list.len() == 0 || list[0] == '/'
        },
        None => false,
    }
}

/// A tag path that is already tidy.
pub open spec fn tidy_path(path: Seq<char>) -> bool {
    path_of(path) == Ok::<Seq<char>, Seq<char>>(path)
}

// ---- Rules -------------------------------------------------------------------------------------

impl RuleView {
    /// The tag the rule is about.
    pub open spec fn from(self) -> Seq<char> {
        match self {
            RuleView::Rename { from, .. } => from,
            RuleView::Delete { path } => path,
        }
    }

    /// The text the rule is kept as.
    pub open spec fn written(self) -> Seq<char> {
        match self {
            RuleView::Rename { from, to } => "rename "@ + from + " -> "@ + to,
            RuleView::Delete { path } => "delete "@ + path,
        }
    }

    /// What the rule does, in words.
    pub open spec fn told(self) -> Seq<char> {
        match self {
            RuleView::Rename { from, to } => "Rename "@ + from + " to "@ + to,
            RuleView::Delete { path } => "Delete "@ + path,
        }
    }

    /// What the rule makes of one tag path: a rename puts its new name where the old one was, of
    /// the tag and of all below it, and a delete takes both away.
    pub open spec fn map(self, path: Seq<char>) -> Option<Seq<char>> {
        match self {
            RuleView::Rename { from, to } => if lies_within(path, from) {
                Some(to + path.skip(from.len() as int))
            } else {
                Some(path)
            },
            RuleView::Delete { path: gone } => if lies_within(path, gone) {
                None
            } else {
                Some(path)
            },
        }
    }

    /// Whether the rule could have been entered: its paths are tidy, and a rename goes somewhere
    /// else that is not inside itself.
    pub open spec fn entered(self) -> bool {
        match self {
            RuleView::Rename { from, to } => tidy_path(from) && tidy_path(to) && !lies_within(
                to,
                from,
            ),
            RuleView::Delete { path } => tidy_path(path),
        }
    }
}

/// A rename, or why it cannot be one.
pub open spec fn rename_of(from: Seq<char>, to: Seq<char>) -> Result<RuleView, Seq<char>> {
    match path_of(from) {
        Err(why) => Err(why),
        Ok(from) => match path_of(to) {
            Err(why) => Err(why),
            Ok(to) => if from == to {
                Err(from + " is already called that"@)
            } else if lies_within(to, from) {
                Err(from + " cannot move inside itself"@)
            } else {
                Ok(RuleView::Rename { from, to })
            },
        },
    }
}

/// A delete, or why it cannot be one.
pub open spec fn delete_of(path: Seq<char>) -> Result<RuleView, Seq<char>> {
    match path_of(path) {
        Err(why) => Err(why),
        Ok(path) => Ok(RuleView::Delete { path }),
    }
}

/// The rule a text stands for, or why it is none.
pub open spec fn rule_of(text: Seq<char>) -> Result<RuleView, Seq<char>> {
    let text = trimmed(text);
    match after_start(text, "rename "@) {
        Some(rest) => match cut_text(rest, "->"@) {
            Some((from, to)) => rename_of(from, to),
            None => Err(quotation(text) + " does not say what to rename it to"@),
        },
        None => match after_start(text, "delete "@) {
            Some(path) => delete_of(path),
            None => Err(quotation(text) + " is not a rule"@),
        },
    }
}

/// What making a rule gave.
pub open spec fn rule_view(rule: Result<Rule, String>) -> Result<RuleView, Seq<char>> {
    match rule {
        Ok(rule) => Ok(rule@),
        Err(why) => Err(why@),
    }
}

impl Rule {
    /// A rename, its paths checked.
    pub fn rename(from: &str, to: &str) -> (rule: Result<Rule, String>)
        ensures
            rule_view(rule) == rename_of(from@, to@),
    {
        let from = match path(from) {
            Ok(from) => from,
            Err(why) => return Err(why),
        };
        let to = match path(to) {
            Ok(to) => to,
            Err(why) => return Err(why),
        };
        if same(&from, &to) {
            return Err(from.concat(" is already called that"));
        }
        if within(&to, &from) {
            return Err(from.concat(" cannot move inside itself"));
        }
        Ok(Rule::Rename { from, to })
    }

    pub fn delete(path: &str) -> (rule: Result<Rule, String>)
        ensures
            rule_view(rule) == delete_of(path@),
    {
        match self::path(path) {
            Ok(path) => Ok(Rule::Delete { path }),
            Err(why) => Err(why),
        }
    }

    /// `rename A -> B` or `delete A`.
    pub fn read(text: &str) -> (rule: Result<Rule, String>)
        ensures
            rule_view(rule) == rule_of(text@),
    {
        let text = trim(text);
        if let Some(rest) = strip_start(&text, "rename ") {
            return match split_at_text(&rest, "->") {
                Some((from, to)) => Rule::rename(&from, &to),
                None => Err(quoted(&text).concat(" does not say what to rename it to")),
            };
        }
        if let Some(path) = strip_start(&text, "delete ") {
            return Rule::delete(&path);
        }
        Err(quoted(&text).concat(" is not a rule"))
    }

    pub fn written(&self) -> (text: String)
        ensures
            text@ == self@.written(),
    {
        match self {
            Rule::Rename { from, to } => copy("rename ").concat(from).concat(" -> ").concat(to),
            Rule::Delete { path } => copy("delete ").concat(path),
        }
    }

    /// The tag the rule is about.
    pub fn from(&self) -> (path: &str)
        ensures
            path@ == self@.from(),
    {
        match self {
            Rule::Rename { from, .. } => from.as_str(),
            Rule::Delete { path } => path.as_str(),
        }
    }

    /// `Rename People to people`, `Delete mixed/wired`.
    pub fn tells(&self) -> (words: String)
        ensures
            words@ == self@.told(),
    {
        match self {
            Rule::Rename { from, to } => copy("Rename ").concat(from).concat(" to ").concat(to),
            Rule::Delete { path } => copy("Delete ").concat(path),
        }
    }

    /// What the rule makes of one tag path: `None` takes it away.
    pub fn map(&self, path: &str) -> (mapped: Option<String>)
        ensures
            view_opt(mapped) == self@.map(path@),
    {
        match self {
            Rule::Rename { from, to } => {
                if within(path, from) {
                    match strip_start(path, from) {
                        Some(rest) => Some(to.clone().concat(&rest)),
                        None => Some(copy(path)),
                    }
                } else {
                    Some(copy(path))
                }
            },
            Rule::Delete { path: gone } => {
                if within(path, gone) {
                    None
                } else {
                    Some(copy(path))
                }
            },
        }
    }

    fn copy(&self) -> (copied: Rule)
        ensures
            copied@ == self@,
    {
        match self {
            Rule::Rename { from, to } => Rule::Rename { from: from.clone(), to: to.clone() },
            Rule::Delete { path } => Rule::Delete { path: path.clone() },
        }
    }

    fn is(&self, other: &Rule) -> (yes: bool)
        ensures
            yes == (self@ == other@),
    {
        match (self, other) {
            (Rule::Rename { from: a, to: b }, Rule::Rename { from: c, to: d }) => same(a, c) && same(
                b,
                d,
            ),
            (Rule::Delete { path: a }, Rule::Delete { path: b }) => same(a, b),
            _ => false,
        }
    }
}

/// What a list of rules says.
pub open spec fn rule_views(rules: Seq<Rule>) -> Seq<RuleView> {
    Seq::new(rules.len(), |i: int| rules[i]@)
}

/// Where one path ends up after every rule.
pub open spec fn followed(rules: Seq<RuleView>, path: Seq<char>) -> Option<Seq<char>>
    decreases rules.len(),
{
    if rules.len() == 0 {
        Some(path)
    } else {
        match followed(rules.drop_last(), path) {
            Some(path) => rules.last().map(path),
            None => None,
        }
    }
}

/// The first of these rules that has already taken a tag away.
pub open spec fn taken_by(rules: Seq<RuleView>, from: Seq<char>) -> Option<RuleView>
    decreases rules.len(),
{
    if rules.len() == 0 {
        None
    } else {
        match taken_by(rules.drop_last(), from) {
            Some(earlier) => Some(earlier),
            None => if lies_within(from, rules.last().from()) {
                Some(rules.last())
            } else {
                None
            },
        }
    }
}

/// Whether the rules take what a rename moves back to where it was.
pub open spec fn leads_back(rules: Seq<RuleView>, rule: RuleView) -> bool {
    &&& rule is Rename
    &&& match followed(rules, rule.from()) {
        Some(end) => lies_within(end, rule.from()),
        None => false,
    }
}

/// The first of so many of the rules that lead back.
pub open spec fn led_back(rules: Seq<RuleView>, upto: int) -> Option<Seq<char>>
    decreases upto,
{
    if upto <= 0 {
        None
    } else {
        match led_back(rules, upto - 1) {
            Some(origin) => Some(origin),
            None => if leads_back(rules, rules[upto - 1]) {
                Some(rules[upto - 1].from())
            } else {
                None
            },
        }
    }
}

/// Why one more rule cannot stand at the end of the rules, if it cannot.
pub open spec fn refused(rules: Seq<RuleView>, rule: RuleView) -> Option<Seq<char>> {
    if rules.contains(rule) {
        Some(rule.told() + " is already a rule"@)
    } else {
        match taken_by(rules, rule.from()) {
            Some(RuleView::Rename { from, to }) => Some(
                "an earlier rule already renames "@ + from + " to "@ + to + ", so "@ + rule.from()
                    + " is not there any more"@,
            ),
            Some(RuleView::Delete { path }) => Some(
                "an earlier rule already deletes "@ + path + ", so "@ + rule.from()
                    + " is not there any more"@,
            ),
            None => match led_back(rules.push(rule), rules.len() as int + 1) {
                Some(origin) => Some(
                    rule.told() + " would take "@ + origin + " back to where it was"@,
                ),
                None => None,
            },
        }
    }
}

/// The rules, in the order they are applied.
#[derive(Debug, Clone, PartialEq, Eq)]
pub struct Rules(pub Vec<Rule>);

impl View for Rules {
    type V = Seq<RuleView>;

    open spec fn view(&self) -> Seq<RuleView> {
        rule_views(self.0@)
    }
}

impl Default for Rules {
    fn default() -> (rules: Rules)
        ensures
            rules@ == Seq::<RuleView>::empty(),
    {
        let rules = Rules(Vec::new());
        assert(rules@ =~= Seq::<RuleView>::empty());
        rules
    }
}

/// The paths no other path of the set is below: those of the tags, trimmed, that say something
/// another does not.
pub open spec fn deep(tags: Seq<Seq<char>>, path: Seq<char>) -> bool {
    &&& path.len() > 0
    &&& trimmed_all(tags).contains(path)
    &&& forall|other: Seq<char>| #[trigger]
        trimmed_all(tags).contains(other) && other.len() > path.len() ==> !lies_within(other, path)
}

pub open spec fn deep_set(tags: Seq<Seq<char>>) -> Set<Seq<char>> {
    Set::new(|path: Seq<char>| deep(tags, path))
}

/// The paths no other path of the set is below, each once, in order.
pub open spec fn deepest_of(tags: Seq<Seq<char>>) -> Seq<Seq<char>> {
    in_order(deep_set(tags))
}

/// Where these paths end up, those that are taken away left out.
pub open spec fn followed_all(rules: Seq<RuleView>, paths: Seq<Seq<char>>) -> Seq<Seq<char>>
    decreases paths.len(),
{
    if paths.len() == 0 {
        Seq::empty()
    } else {
        let before = followed_all(rules, paths.drop_last());
        match followed(rules, paths.last()) {
            Some(path) => before.push(path),
            None => before,
        }
    }
}

/// A photo's tags after the rules: its deepest tags, each followed through every rule.
pub open spec fn mapped(rules: Seq<RuleView>, tags: Seq<Seq<char>>) -> Seq<Seq<char>> {
    deepest_of(followed_all(rules, deepest_of(tags)))
}

/// Whether a rule changes one of these tags.
pub open spec fn changes(rule: RuleView, tags: Seq<Seq<char>>) -> bool {
    exists|i: int| 0 <= i < tags.len() && rule.map(#[trigger] tags[i]) != Some(tags[i])
}

/// How many of these photos' tag sets a rule changes, after the rules before it.
pub open spec fn touched_of(
    before: Seq<RuleView>,
    rule: RuleView,
    photos: Seq<Seq<Seq<char>>>,
) -> nat
    decreases photos.len(),
{
    if photos.len() == 0 {
        0
    } else {
        touched_of(before, rule, photos.drop_last()) + if changes(
            rule,
            mapped(before, photos.last()),
        ) {
            1nat
        } else {
            0nat
        }
    }
}

impl Rules {
    fn copy(&self) -> (copied: Rules)
        ensures
            copied@ == self@,
    {
        self.first(self.0.len())
    }

    fn first(&self, n: usize) -> (copied: Rules)
        requires
            n <= self.0@.len(),
        ensures
            copied@ == self@.take(n as int),
            n == self.0@.len() ==> copied@ == self@,
    {
        let mut list: Vec<Rule> = Vec::new();
        for i in 0..n
            invariant
                n <= self.0@.len(),
                rule_views(list@) == self@.take(i as int),
        {
            let ghost before = rule_views(list@);
            list.push(self.0[i].copy());
            assert(rule_views(list@) =~= before.push(self.0@[i as int]@));
            assert(rule_views(list@) =~= self@.take(i + 1));
        }
        assert(self@.take(self.0@.len() as int) =~= self@);
        Rules(list)
    }

    /// One more rule at the end, unless it could never do anything or makes a cycle.
    pub fn add(&mut self, rule: Rule) -> (added: Result<(), String>)
        ensures
            match added {
                Ok(_) => refused(old(self)@, rule@) is None && final(self)@ == old(self)@.push(
                    rule@,
                ),
                Err(why) => refused(old(self)@, rule@) == Some(why@) && final(self)@ == old(self)@,
            },
    {
        if let Some(why) = self.refusal(&rule) {
            return Err(why);
        }
        let ghost before = self@;
        self.0.push(rule);
        assert(self@ =~= before.push(rule@));
        Ok(())
    }

    pub fn remove(&mut self, index: usize) -> (removed: Option<Rule>)
        ensures
            match removed {
                Some(rule) => index < old(self)@.len() && rule@ == old(self)@[index as int]
                    && final(self)@ == old(self)@.remove(index as int),
                None => index >= old(self)@.len() && final(self)@ == old(self)@,
            },
    {
        let ghost before = self@;
        if index < self.0.len() {
            let rule = self.0.remove(index);
            assert(self@ =~= before.remove(index as int));
            Some(rule)
        } else {
            None
        }
    }

    fn refusal(&self, rule: &Rule) -> (why: Option<String>)
        ensures
            view_opt(why) == refused(self@, rule@),
    {
        for i in 0..self.0.len()
            invariant
                forall|j: int| 0 <= j < i ==> self@[j] != rule@,
        {
            if self.0[i].is(rule) {
                assert(self@[i as int] == rule@);
                return Some(rule.tells().concat(" is already a rule"));
            }
        }
        let from = rule.from();
        for i in 0..self.0.len()
            invariant
                !self@.contains(rule@),
                from@ == rule@.from(),
                taken_by(self@.take(i as int), rule@.from()) is None,
        {
            let earlier = &self.0[i];
            assert(self@.take(i + 1).drop_last() =~= self@.take(i as int));
            assert(self@.take(i + 1).last() == earlier@);
            if within(from, earlier.from()) {
                proof {
                    lemma_taken_stays(self@, rule@.from(), i + 1);
                }
                return Some(
                    match earlier {
                        Rule::Rename { from: old, to } => copy(
                            "an earlier rule already renames ",
                        ).concat(old).concat(" to ").concat(to).concat(", so ").concat(from).concat(
                            " is not there any more",
                        ),
                        Rule::Delete { path } => copy("an earlier rule already deletes ").concat(
                            path,
                        ).concat(", so ").concat(from).concat(" is not there any more"),
                    },
                );
            }
        }
        assert(self@.take(self@.len() as int) =~= self@);
        let mut all = self.copy();
        let ghost before = all@;
        all.0.push(rule.copy());
        assert(all@ =~= self@.push(rule@)) by {
            assert(all@ =~= before.push(rule@));
        }
        for i in 0..all.0.len()
            invariant
                !self@.contains(rule@),
                taken_by(self@, rule@.from()) is None,
                all@ == self@.push(rule@),
                all.0@.len() == self@.len() + 1,
                led_back(all@, i as int) is None,
        {
            let moved = &all.0[i];
            assert(all@[i as int] == moved@);
            if let Rule::Rename { .. } = moved {
                let origin = moved.from();
                let end = all.follow(origin);
                if let Some(end) = end {
                    if within(&end, origin) {
                        proof {
                            lemma_led_back_stays(all@, i + 1, all@.len() as int);
                        }
                        return Some(
                            rule.tells().concat(" would take ").concat(origin).concat(
                                " back to where it was",
                            ),
                        );
                    }
                }
            }
        }
        None
    }

    /// Where one path ends up after every rule.
    pub fn follow(&self, path: &str) -> (end: Option<String>)
        ensures
            view_opt(end) == followed(self@, path@),
    {
        let mut at = copy(path);
        for i in 0..self.0.len()
            invariant
                followed(self@.take(i as int), path@) == Some(at@),
        {
            assert(self@.take(i + 1).drop_last() =~= self@.take(i as int));
            assert(self@.take(i + 1).last() == self.0@[i as int]@);
            match self.0[i].map(&at) {
                Some(next) => at = next,
                None => {
                    proof {
                        lemma_gone_stays(self@, path@, i + 1);
                    }
                    return None;
                },
            }
        }
        assert(self@.take(self@.len() as int) =~= self@);
        Some(at)
    }

    /// A photo's tags after the rules: its deepest tags, each followed through every rule.
    pub fn map(&self, tags: &[String]) -> (after: Vec<String>)
        ensures
            views(after@) == mapped(self@, views(tags@)),
    {
        let deep = deepest(tags);
        let mut ends: Vec<String> = Vec::new();
        for i in 0..deep.len()
            invariant
                views(ends@) == followed_all(self@, views(deep@).take(i as int)),
        {
            let ghost before = views(ends@);
            assert(views(deep@).take(i + 1).drop_last() =~= views(deep@).take(i as int));
            assert(views(deep@).take(i + 1).last() == deep@[i as int]@);
            if let Some(end) = self.follow(&deep[i]) {
                ends.push(end);
                assert(views(ends@) =~= before.push(end@));
            }
        }
        assert(views(deep@).take(deep@.len() as int) =~= views(deep@));
        deepest(&ends)
    }

    /// How many of these photos' tag sets the rule at `index` changes, after the rules before it.
    pub fn touched(&self, index: usize, photos: &[Vec<String>]) -> (count: usize)
        requires
            index < self@.len(),
        ensures
            count == touched_of(
                self@.take(index as int),
                self@[index as int],
                tag_lists(photos@),
            ),
    {
        let before = self.first(index);
        let rule = &self.0[index];
        let mut count: usize = 0;
        let ghost all = tag_lists(photos@);
        for n in 0..photos.len()
            invariant
                all == tag_lists(photos@),
                count <= n,
                count == touched_of(before@, rule@, all.take(n as int)),
        {
            assert(all.take(n + 1).drop_last() =~= all.take(n as int));
            assert(all.take(n + 1).last() == views(photos@[n as int]@));
            let tags = before.map(&photos[n]);
            if changed(rule, &tags) {
                count += 1;
            }
        }
        assert(all.take(all.len() as int) =~= all);
        count
    }
}

fn changed(rule: &Rule, tags: &[String]) -> (yes: bool)
    ensures
        yes == changes(rule@, views(tags@)),
{
    for i in 0..tags.len()
        invariant
            forall|j: int|
                0 <= j < i ==> rule@.map(#[trigger] views(tags@)[j]) == Some(views(tags@)[j]),
    {
        let same_still = match rule.map(&tags[i]) {
            Some(path) => same(&path, &tags[i]),
            None => false,
        };
        if !same_still {
            assert(rule@.map(views(tags@)[i as int]) != Some(views(tags@)[i as int]));
            return true;
        }
    }
    false
}

proof fn lemma_taken_stays(rules: Seq<RuleView>, from: Seq<char>, i: int)
    requires
        0 <= i <= rules.len(),
        taken_by(rules.take(i), from) is Some,
    ensures
        taken_by(rules, from) == taken_by(rules.take(i), from),
    decreases rules.len() - i,
{
    if i < rules.len() {
        assert(rules.take(i + 1).drop_last() =~= rules.take(i));
        lemma_taken_stays(rules, from, i + 1);
    } else {
        assert(rules.take(i) =~= rules);
    }
}

proof fn lemma_led_back_stays(rules: Seq<RuleView>, i: int, n: int)
    requires
        0 <= i <= n,
        led_back(rules, i) is Some,
    ensures
        led_back(rules, n) == led_back(rules, i),
    decreases n - i,
{
    if i < n {
        lemma_led_back_stays(rules, i, n - 1);
    }
}

proof fn lemma_gone_stays(rules: Seq<RuleView>, path: Seq<char>, i: int)
    requires
        0 <= i <= rules.len(),
        followed(rules.take(i), path) is None,
    ensures
        followed(rules, path) is None,
    decreases rules.len() - i,
{
    if i < rules.len() {
        assert(rules.take(i + 1).drop_last() =~= rules.take(i));
        lemma_gone_stays(rules, path, i + 1);
    } else {
        assert(rules.take(i) =~= rules);
    }
}

/// The paths no other path of the set is below, each once, in order: `places/inChina` says
/// nothing `places/inChina/Beijing` does not.
pub fn deepest(tags: &[String]) -> (deep: Vec<String>)
    ensures
        views(deep@) == deepest_of(views(tags@)),
        is_in_order(views(deep@), deep_set(views(tags@))),
{
    let trimmed = trim_all(tags);
    let all = sorted_set(&trimmed);
    let ghost set = trimmed_all(views(tags@));
    let mut deep: Vec<String> = Vec::new();
    for i in 0..all.len()
        invariant
            set == trimmed_all(views(tags@)),
            forall|x: Seq<char>| #[trigger] views(all@).contains(x) <==> set.contains(x),
            increasing(views(deep@)),
            forall|x: Seq<char>| #[trigger]
                views(deep@).contains(x) <==> self::deep(views(tags@), x) && views(all@).take(
                    i as int,
                ).contains(x),
    {
        let path = &all[i];
        let mut shallow = empty(path);
        for j in 0..all.len()
            invariant
                i < all@.len(),
                path == &all@[i as int],
                forall|x: Seq<char>| #[trigger] views(all@).contains(x) <==> set.contains(x),
                shallow ==> path@.len() == 0 || exists|k: int|
                    0 <= k < j && (#[trigger] views(all@)[k]).len() > path@.len() && lies_within(
                        views(all@)[k],
                        path@,
                    ),
                !shallow ==> path@.len() > 0 && forall|k: int|
                    0 <= k < j && (#[trigger] views(all@)[k]).len() > path@.len() ==> !lies_within(
                        views(all@)[k],
                        path@,
                    ),
        {
            let longer = chars(&all[j]).len() > chars(path).len();
            if longer && within(&all[j], path) {
                assert(views(all@)[j as int].len() > path@.len());
                shallow = true;
            }
        }
        let ghost some = views(all@).take(i as int);
        let ghost more = views(all@).take(i + 1);
        proof {
            assert(more =~= some.push(path@));
            assert(views(all@)[i as int] == path@);
            assert(views(all@).contains(path@));
            assert(self::deep(views(tags@), path@) == !shallow) by {
                if shallow && path@.len() > 0 {
                    let k = choose|k: int|
                        0 <= k < all@.len() && (#[trigger] views(all@)[k]).len() > path@.len()
                            && lies_within(views(all@)[k], path@);
                    assert(views(all@).contains(views(all@)[k]));
                    assert(set.contains(views(all@)[k]));
                }
                if !shallow {
                    assert forall|other: Seq<char>| #[trigger] set.contains(other) && other.len()
                        > path@.len() implies !lies_within(other, path@) by {
                        assert(views(all@).contains(other));
                        let k = choose|k: int| 0 <= k < all@.len() && views(all@)[k] == other;
                        assert(views(all@)[k].len() > path@.len());
                    }
                }
            }
            assert forall|x: Seq<char>| #[trigger] more.contains(x) <==> some.contains(x) || x
                == path@ by {
                crate::browse::lemma_push_contains(some, path@, x);
            }
        }
        if !shallow {
            insert(&mut deep, path.clone());
        }
    }
    proof {
        assert(views(all@).take(all@.len() as int) =~= views(all@));
        assert forall|x: Seq<char>| #[trigger] views(deep@).contains(x) <==> deep_set(
            views(tags@),
        ).contains(x) by {
            if self::deep(views(tags@), x) {
                assert(set.contains(x));
                assert(views(all@).contains(x));
            }
        }
        in_order_is(views(deep@), deep_set(views(tags@)));
    }
    deep
}

/// Those of these tags that say something: a root on its own does not where the tree has tags
/// below it.
pub open spec fn kept_roots(tags: Seq<Seq<char>>, nodes: Seq<(Seq<char>, int)>) -> Seq<Seq<char>>
    decreases tags.len(),
{
    if tags.len() == 0 {
        Seq::empty()
    } else {
        let before = kept_roots(tags.drop_last(), nodes);
        if tags.last().contains('/') || children_of(nodes, tags.last()).len() == 0 {
            before.push(tags.last())
        } else {
            before
        }
    }
}

/// A root on its own says nothing when the tree has tags below it: `events` alone is dropped.
pub fn without_bare_roots(tags: Vec<String>, tree: &TagTree) -> (kept: Vec<String>)
    ensures
        views(kept@) == kept_roots(views(tags@), tree@),
{
    let mut kept: Vec<String> = Vec::new();
    for i in 0..tags.len()
        invariant
            views(kept@) == kept_roots(views(tags@).take(i as int), tree@),
    {
        let ghost before = views(kept@);
        assert(views(tags@).take(i + 1).drop_last() =~= views(tags@).take(i as int));
        assert(views(tags@).take(i + 1).last() == tags@[i as int]@);
        let children = tree.children(&tags[i]);
        assert(views(children@).len() == children@.len());
        if holds_char(&tags[i], '/') || children.len() == 0 {
            kept.push(tags[i].clone());
            assert(views(kept@) =~= before.push(tags@[i as int]@));
        }
    }
    assert(views(tags@).take(tags@.len() as int) =~= views(tags@));
    kept
}

// ---- Suggestions -------------------------------------------------------------------------------

/// What the tree offers to tidy, and the rules that would.
#[derive(Debug, Clone, PartialEq, Eq)]
pub struct Suggestion {
    /// What Leave Alone is remembered under.
    pub key: String,
    /// `People and people`.
    pub title: String,
    /// `Merge Into people`.
    pub offer: String,
    /// Photos carrying any of the tags it would move.
    pub photos: i64,
    pub rules: Vec<Rule>,
}

#[verifier::ext_equal]
pub struct SuggestionView {
    pub key: Seq<char>,
    pub title: Seq<char>,
    pub offer: Seq<char>,
    pub photos: int,
    pub rules: Seq<RuleView>,
}

impl View for Suggestion {
    type V = SuggestionView;

    open spec fn view(&self) -> SuggestionView {
        SuggestionView {
            key: self.key@,
            title: self.title@,
            offer: self.offer@,
            photos: self.photos as int,
            rules: rule_views(self.rules@),
        }
    }
}

pub open spec fn suggestion_views(list: Seq<Suggestion>) -> Seq<SuggestionView> {
    Seq::new(list.len(), |i: int| list[i]@)
}

/// How many photos a tree counts for a path, none where it does not have it.
pub open spec fn photos_under(nodes: Seq<(Seq<char>, int)>, path: Seq<char>) -> int {
    match count_of(nodes, path) {
        Some(n) => n,
        None => 0,
    }
}

/// The spelling most photos carry, the first in order of those that as many do.
pub open spec fn most_carried(nodes: Seq<(Seq<char>, int)>, list: Seq<Seq<char>>) -> Seq<char>
    decreases list.len(),
{
    if list.len() <= 1 {
        list[0]
    } else {
        let best = most_carried(nodes, list.drop_last());
        if photos_under(nodes, list.last()) > photos_under(nodes, best) {
            list.last()
        } else {
            best
        }
    }
}

/// What twins are merged into: the lowercase spelling where there is one.
pub open spec fn merge_into(nodes: Seq<(Seq<char>, int)>, list: Seq<Seq<char>>) -> Seq<char> {
    let lower = lowercased(list[0]);
    if list.contains(lower) {
        lower
    } else {
        most_carried(nodes, list)
    }
}

/// These texts without one.
pub open spec fn all_but(list: Seq<Seq<char>>, one: Seq<char>) -> Seq<Seq<char>>
    decreases list.len(),
{
    if list.len() == 0 {
        Seq::empty()
    } else if list.last() == one {
        all_but(list.drop_last(), one)
    } else {
        all_but(list.drop_last(), one).push(list.last())
    }
}

/// The renames of these paths into one, of those that can be renamed.
pub open spec fn renames(list: Seq<Seq<char>>, into: Seq<char>) -> Seq<RuleView>
    decreases list.len(),
{
    if list.len() == 0 {
        Seq::empty()
    } else {
        let before = renames(list.drop_last(), into);
        match rename_of(list.last(), into) {
            Ok(rule) => before.push(rule),
            Err(_) => before,
        }
    }
}

/// What is offered for spellings that differ in case alone.
pub open spec fn twin_offer(
    nodes: Seq<(Seq<char>, int)>,
    photos: Seq<Seq<Seq<char>>>,
    list: Seq<Seq<char>>,
) -> SuggestionView {
    let into = merge_into(nodes, list);
    let moved = all_but(list, into);
    SuggestionView {
        key: "twin:"@ + lowercased(list[0]),
        title: joined(list, " and "@),
        offer: "Merge Into "@ + into,
        photos: carriers_of_any(photos, moved),
        rules: renames(moved, into),
    }
}

pub open spec fn twin_offers(
    nodes: Seq<(Seq<char>, int)>,
    photos: Seq<Seq<Seq<char>>>,
    twins: Seq<Seq<Seq<char>>>,
) -> Seq<SuggestionView> {
    Seq::new(twins.len(), |i: int| twin_offer(nodes, photos, twins[i]))
}

/// The last part of a path.
pub open spec fn leaf_of(path: Seq<char>) -> Seq<char> {
    parent_and_leaf(path).1
}

/// Whether the second of two look-alikes is merged into the first: more photos carry it, or as
/// many do and its name is no shorter.
pub open spec fn first_wins(
    nodes: Seq<(Seq<char>, int)>,
    one: Seq<char>,
    other: Seq<char>,
) -> bool {
    let a = photos_under(nodes, one);
    let b = photos_under(nodes, other);
    a > b || (a == b && size(leaf_of(one)) >= size(leaf_of(other)))
}

/// What is offered for two siblings that look alike.
pub open spec fn alike_offer(
    nodes: Seq<(Seq<char>, int)>,
    pair: (Seq<char>, Seq<char>),
) -> SuggestionView {
    let (one, other) = pair;
    let (from, into) = if first_wins(nodes, one, other) {
        (other, one)
    } else {
        (one, other)
    };
    SuggestionView {
        key: "alike:"@ + one + "|"@ + other,
        title: one + " and "@ + other,
        offer: "Merge Into "@ + into,
        photos: photos_under(nodes, from),
        rules: renames(seq![from], into),
    }
}

pub open spec fn alike_offers(
    nodes: Seq<(Seq<char>, int)>,
    pairs: Seq<(Seq<char>, Seq<char>)>,
) -> Seq<SuggestionView> {
    Seq::new(pairs.len(), |i: int| alike_offer(nodes, pairs[i]))
}

/// What is offered for a leaf of the `mixed` bucket.
pub open spec fn mixed_offer(nodes: Seq<(Seq<char>, int)>, name: Seq<char>) -> SuggestionView {
    let from = MIXED@ + "/"@ + name;
    let into = TOPICS@ + "/"@ + name;
    SuggestionView {
        key: "mixed:"@ + name,
        title: from,
        offer: "Move to "@ + into,
        photos: photos_under(nodes, from),
        rules: renames(seq![from], into),
    }
}

pub open spec fn mixed_offers(nodes: Seq<(Seq<char>, int)>, names: Seq<Seq<char>>) -> Seq<
    SuggestionView,
> {
    Seq::new(names.len(), |i: int| mixed_offer(nodes, names[i]))
}

/// Whether the rules take all of these, one after another.
pub open spec fn accepted(rules: Seq<RuleView>, more: Seq<RuleView>) -> bool
    decreases more.len(),
{
    more.len() == 0 || (refused(rules, more[0]) is None && accepted(
        rules.push(more[0]),
        more.skip(1),
    ))
}

/// Whether a suggestion is worth offering: it was not left alone, and the rules would take it.
pub open spec fn offered(
    rules: Seq<RuleView>,
    left: Seq<Seq<char>>,
    suggestion: SuggestionView,
) -> bool {
    !left.contains(suggestion.key) && suggestion.rules.len() > 0 && accepted(
        rules,
        suggestion.rules,
    )
}

/// Those of the suggestions that are worth offering.
pub open spec fn worth_offering(
    rules: Seq<RuleView>,
    left: Seq<Seq<char>>,
    found: Seq<SuggestionView>,
) -> Seq<SuggestionView>
    decreases found.len(),
{
    if found.len() == 0 {
        Seq::empty()
    } else {
        let before = worth_offering(rules, left, found.drop_last());
        if offered(rules, left, found.last()) {
            before.push(found.last())
        } else {
            before
        }
    }
}

/// Everything a tree of these photos offers to tidy.
pub open spec fn offers_of(nodes: Seq<(Seq<char>, int)>, photos: Seq<Seq<Seq<char>>>) -> Seq<
    SuggestionView,
> {
    twin_offers(nodes, photos, twins_of(nodes)) + alike_offers(nodes, look_alikes_of(nodes))
        + mixed_offers(nodes, children_of(nodes, MIXED@))
}

fn photos_at(tree: &TagTree, path: &str) -> (photos: i64)
    ensures
        photos == photos_under(tree@, path@),
{
    match tree.count(path) {
        Some(photos) => photos,
        None => 0,
    }
}

fn offer_for_twins(tree: &TagTree, list: &[String]) -> (offer: Suggestion)
    requires
        list@.len() > 0,
    ensures
        offer@ == twin_offer(tree@, tree.photos(), views(list@)),
{
    let ghost all = views(list@);
    let lower_form = lowercase(&list[0]);
    assert(all[0] == list@[0]@);
    let into = if holds(list, &lower_form) {
        lower_form.clone()
    } else {
        let mut best: usize = 0;
        assert(all.take(1).len() == 1);
        for i in 1..list.len()
            invariant
                all == views(list@),
                best < i <= list@.len(),
                all[best as int] == most_carried(tree@, all.take(i as int)),
        {
            assert(all.take(i + 1).drop_last() =~= all.take(i as int));
            assert(all.take(i + 1).last() == list@[i as int]@);
            if photos_at(tree, &list[i]) > photos_at(tree, &list[best]) {
                best = i;
            }
        }
        assert(all.take(all.len() as int) =~= all);
        list[best].clone()
    };
    let mut moved: Vec<String> = Vec::new();
    let mut rules: Vec<Rule> = Vec::new();
    assert(views(moved@) =~= Seq::empty());
    assert(rule_views(rules@) =~= renames(Seq::empty(), into@));
    for i in 0..list.len()
        invariant
            all == views(list@),
            views(moved@) == all_but(all.take(i as int), into@),
            rule_views(rules@) == renames(views(moved@), into@),
    {
        let ghost upto = all.take(i + 1);
        assert(upto.drop_last() =~= all.take(i as int));
        assert(upto.last() == list@[i as int]@);
        if !same(&list[i], &into) {
            let ghost few = views(moved@);
            moved.push(list[i].clone());
            assert(views(moved@) =~= few.push(list@[i as int]@));
            assert(views(moved@).drop_last() =~= few);
            let ghost before = rule_views(rules@);
            if let Ok(rule) = Rule::rename(&list[i], &into) {
                rules.push(rule);
                assert(rule_views(rules@) =~= before.push(rule@));
            }
        }
    }
    assert(all.take(all.len() as int) =~= all);
    Suggestion {
        key: copy("twin:").concat(&lower_form),
        title: join(list, " and "),
        offer: copy("Merge Into ").concat(&into),
        photos: tree.carrying(&moved),
        rules,
    }
}

fn rename_one(from: &str, into: &str) -> (rules: Vec<Rule>)
    ensures
        rule_views(rules@) == renames(seq![from@], into@),
{
    proof {
        assert(seq![from@].drop_last() =~= Seq::<Seq<char>>::empty());
        reveal_with_fuel(renames, 2);
    }
    match Rule::rename(from, into) {
        Ok(rule) => {
            let rules = vec![rule];
            assert(rule_views(rules@) =~= Seq::<RuleView>::empty().push(rule@));
            rules
        },
        Err(_) => {
            let rules: Vec<Rule> = Vec::new();
            assert(rule_views(rules@) =~= Seq::<RuleView>::empty());
            rules
        },
    }
}

fn leaf(path: &str) -> (name: String)
    ensures
        name@ == leaf_of(path@),
{
    match split_last(path, '/') {
        Some((_, name)) => name,
        None => copy(path),
    }
}

fn offer_for_alikes(tree: &TagTree, one: &str, other: &str) -> (offer: Suggestion)
    ensures
        offer@ == alike_offer(tree@, (one@, other@)),
{
    let a = photos_at(tree, one);
    let b = photos_at(tree, other);
    let wins = a > b || (a == b && size_of(&leaf(one)) >= size_of(&leaf(other)));
    let from = if wins {
        other
    } else {
        one
    };
    let into = if wins {
        one
    } else {
        other
    };
    Suggestion {
        key: copy("alike:").concat(one).concat("|").concat(other),
        title: copy(one).concat(" and ").concat(other),
        offer: copy("Merge Into ").concat(into),
        photos: photos_at(tree, from),
        rules: rename_one(from, into),
    }
}

fn offer_for_mixed(tree: &TagTree, name: &str) -> (offer: Suggestion)
    ensures
        offer@ == mixed_offer(tree@, name@),
{
    let from = copy(MIXED).concat("/").concat(name);
    let into = copy(TOPICS).concat("/").concat(name);
    let rules = rename_one(&from, &into);
    let photos = photos_at(tree, &from);
    Suggestion {
        key: copy("mixed:").concat(name),
        title: from,
        offer: copy("Move to ").concat(&into),
        photos,
        rules,
    }
}

impl Rules {
    fn takes(&self, more: &[Rule]) -> (yes: bool)
        ensures
            yes == accepted(self@, rule_views(more@)),
    {
        let mut tried = self.copy();
        let ghost all = rule_views(more@);
        assert(all.skip(0) =~= all);
        for i in 0..more.len()
            invariant
                all == rule_views(more@),
                accepted(self@, all) == accepted(tried@, all.skip(i as int)),
        {
            assert(all.skip(i as int)[0] == more@[i as int]@);
            assert(all.skip(i as int).skip(1) =~= all.skip(i + 1));
            if tried.add(more[i].copy()).is_err() {
                return false;
            }
        }
        true
    }
}

/// Case twins, look-alikes and the leaves of `mixed`, from the tree after the rules so far. A
/// suggestion left alone, or one the rules would refuse, is not offered.
pub fn suggestions(tree: &TagTree, rules: &Rules, left: &[String]) -> (offers: Vec<Suggestion>)
    ensures
        suggestion_views(offers@) == worth_offering(
            rules@,
            views(left@),
            offers_of(tree@, tree.photos()),
        ),
{
    let mut found: Vec<Suggestion> = Vec::new();
    let twins = tree.case_twins();
    let ghost groups = twins_of(tree@);
    assert(suggestion_views(found@) =~= Seq::empty());
    proof {
        lemma_twins_are_several(tree@, in_order(crate::browse::lower_forms(tree@)));
    }
    for i in 0..twins.len()
        invariant
            tag_lists(twins@) == groups,
            forall|k: int| 0 <= k < groups.len() ==> (#[trigger] groups[k]).len() > 1,
            suggestion_views(found@) == twin_offers(tree@, tree.photos(), groups).take(i as int),
    {
        let ghost before = suggestion_views(found@);
        assert(groups[i as int] == views(twins@[i as int]@));
        let offer = offer_for_twins(tree, &twins[i]);
        found.push(offer);
        assert(suggestion_views(found@) =~= before.push(offer@));
        assert(suggestion_views(found@) =~= twin_offers(tree@, tree.photos(), groups).take(i + 1));
    }
    let ghost first = twin_offers(tree@, tree.photos(), groups);
    assert(suggestion_views(found@) =~= first);
    let pairs = tree.look_alikes();
    let ghost pair_list = look_alikes_of(tree@);
    let ghost second = alike_offers(tree@, pair_list);
    for i in 0..pairs.len()
        invariant
            pair_views(pairs@) == pair_list,
            second == alike_offers(tree@, pair_list),
            suggestion_views(found@) == first + second.take(i as int),
    {
        let ghost before = suggestion_views(found@);
        assert(pair_list[i as int] == (pairs@[i as int].0@, pairs@[i as int].1@));
        let offer = offer_for_alikes(tree, &pairs[i].0, &pairs[i].1);
        found.push(offer);
        assert(suggestion_views(found@) =~= before.push(offer@));
        assert(suggestion_views(found@) =~= first + second.take(i + 1));
    }
    assert(suggestion_views(found@) =~= first + second);
    let names = tree.children(MIXED);
    let ghost third = mixed_offers(tree@, children_of(tree@, MIXED@));
    for i in 0..names.len()
        invariant
            views(names@) == children_of(tree@, MIXED@),
            third == mixed_offers(tree@, children_of(tree@, MIXED@)),
            suggestion_views(found@) == first + second + third.take(i as int),
    {
        let ghost before = suggestion_views(found@);
        assert(views(names@)[i as int] == names@[i as int]@);
        let offer = offer_for_mixed(tree, &names[i]);
        found.push(offer);
        assert(suggestion_views(found@) =~= before.push(offer@));
        assert(suggestion_views(found@) =~= first + second + third.take(i + 1));
    }
    assert(suggestion_views(found@) =~= offers_of(tree@, tree.photos()));
    let ghost all = offers_of(tree@, tree.photos());
    let mut offers: Vec<Suggestion> = Vec::new();
    let mut rest: Vec<Suggestion> = found;
    let ghost mut n: int = 0;
    assert(suggestion_views(offers@) =~= Seq::empty());
    assert(all.skip(0) =~= all);
    while rest.len() > 0
        invariant
            0 <= n <= all.len(),
            suggestion_views(rest@) == all.skip(n as int),
            rest@.len() == all.len() - n,
            suggestion_views(offers@) == worth_offering(rules@, views(left@), all.take(n as int)),
        decreases rest.len(),
    {
        let ghost before = suggestion_views(offers@);
        let ghost remaining = suggestion_views(rest@);
        let ghost rest_before = rest@;
        let suggestion = rest.remove(0);
        proof {
            assert(remaining[0] == suggestion@);
            assert forall|k: int| 0 <= k < rest@.len() implies suggestion_views(rest@)[k]
                == all.skip(n + 1)[k] by {
                assert(remaining[k + 1] == rest_before[k + 1]@);
            }
            assert(suggestion_views(rest@) =~= all.skip(n + 1));
            assert(all.take(n + 1).drop_last() =~= all.take(n as int));
            assert(all.take(n + 1).last() == suggestion@);
            n = n + 1;
        }
        assert(rule_views(suggestion.rules@).len() == suggestion.rules@.len());
        if !holds(left, &suggestion.key) && suggestion.rules.len() > 0 && rules.takes(
            &suggestion.rules,
        ) {
            offers.push(suggestion);
            assert(suggestion_views(offers@) =~= before.push(suggestion@));
        }
    }
    assert(all.take(n as int) =~= all);
    offers
}

proof fn lemma_twins_are_several(nodes: Seq<(Seq<char>, int)>, lowers: Seq<Seq<char>>)
    ensures
        forall|k: int|
            0 <= k < twins_among(nodes, lowers).len() ==> (#[trigger] twins_among(
                nodes,
                lowers,
            )[k]).len() > 1,
    decreases lowers.len(),
{
    if lowers.len() > 0 {
        lemma_twins_are_several(nodes, lowers.drop_last());
        let before = twins_among(nodes, lowers.drop_last());
        let now = twins_among(nodes, lowers);
        assert forall|k: int| 0 <= k < now.len() implies (#[trigger] now[k]).len() > 1 by {
            if k < before.len() {
                assert(now[k] == before[k]);
            }
        }
    }
}

/// These photos' tags after the rules.
pub open spec fn mapped_all(rules: Seq<RuleView>, photos: Seq<Seq<Seq<char>>>) -> Seq<
    Seq<Seq<char>>,
> {
    Seq::new(photos.len(), |i: int| mapped(rules, photos[i]))
}

/// The tree after the rules, counted from every photo's tags.
pub fn mapped_tree(rules: &Rules, photos: &[Vec<String>]) -> (tree: TagTree)
    requires
        photos@.len() <= i64::MAX,
    ensures
        increasing(paths(tree@)),
        forall|p: Seq<char>| #[trigger]
            paths(tree@).contains(p) <==> carriers(mapped_all(rules@, tag_lists(photos@)), p) > 0,
        forall|i: int|
            0 <= i < tree@.len() ==> (#[trigger] tree@[i]).1 == carriers(
                mapped_all(rules@, tag_lists(photos@)),
                tree@[i].0,
            ),
        tree.photos() == mapped_all(rules@, tag_lists(photos@)),
{
    let ghost wanted = mapped_all(rules@, tag_lists(photos@));
    let mut after: Vec<Vec<String>> = Vec::new();
    for i in 0..photos.len()
        invariant
            wanted == mapped_all(rules@, tag_lists(photos@)),
            tag_lists(after@) == wanted.take(i as int),
            after@.len() == i,
    {
        let ghost before = tag_lists(after@);
        let tags = rules.map(&photos[i]);
        after.push(tags);
        assert(tag_lists(after@) =~= before.push(views(tags@)));
        assert(tag_lists(after@) =~= wanted.take(i + 1));
    }
    assert(tag_lists(after@) =~= wanted);
    TagTree::counted(&after)
}

// ---- What holds of tags and rules --------------------------------------------------------------

proof fn lemma_typed_levels_tidy(text: Seq<char>)
    ensures
        forall|i: int|
            0 <= i < typed_levels(text).len() ==> !(#[trigger] typed_levels(text)[i]).contains('/')
                && tight(typed_levels(text)[i]),
        typed_levels(text).len() > 0,
{
    let parts = split(trimmed(text), '/');
    crate::text::split_parts_join_to_the_text(trimmed(text), '/');
    assert forall|i: int| 0 <= i < typed_levels(text).len() implies !(
    #[trigger] typed_levels(text)[i]).contains('/') && tight(typed_levels(text)[i]) by {
        let level = typed_levels(text)[i];
        let a = crate::text::trimmed_is_inside(parts[i]);
        if level.contains('/') {
            let k = choose|k: int| 0 <= k < level.len() && level[k] == '/';
            assert(parts[i][a + k] == '/');
        }
    }
}

/// Joined levels that are tight and not empty are tight themselves.
proof fn lemma_joined_tight(levels: Seq<Seq<char>>)
    requires
        levels.len() > 0,
        forall|i: int| 0 <= i < levels.len() ==> tight(#[trigger] levels[i]) && levels[i].len() > 0,
    ensures
        joined(levels, seq!['/']).len() > 0,
        joined(levels, seq!['/'])[0] == levels[0][0],
        joined(levels, seq!['/']).last() == levels.last().last(),
        tight(joined(levels, seq!['/'])),
    decreases levels.len(),
{
    assert(levels[levels.len() - 1].len() > 0);
    assert(tight(levels[0]));
    if levels.len() > 1 {
        let front = levels.drop_last();
        assert forall|i: int| 0 <= i < front.len() implies tight(#[trigger] front[i])
            && front[i].len() > 0 by {
            assert(front[i] == levels[i]);
        }
        lemma_joined_tight(front);
    }
}

/// Levels of their own are what their joined path is typed as.
proof fn lemma_levels_typed_again(levels: Seq<Seq<char>>)
    requires
        levels.len() > 0,
        forall|i: int|
            0 <= i < levels.len() ==> tight(#[trigger] levels[i]) && levels[i].len() > 0
                && !levels[i].contains('/'),
    ensures
        typed_levels(joined(levels, seq!['/'])) == levels,
        tight(joined(levels, seq!['/'])),
        joined(levels, seq!['/']).len() > 0,
{
    let path = joined(levels, seq!['/']);
    lemma_joined_tight(levels);
    crate::text::trimmed_is_tight(path);
    crate::text::joined_parts_split_again(levels, '/');
    assert forall|i: int| 0 <= i < levels.len() implies trimmed(#[trigger] levels[i])
        == levels[i] by {
        crate::text::trimmed_is_tight(levels[i]);
    }
    assert(trimmed_all(levels) =~= levels);
}

/// A path that was made tidy stays as it is when it is made tidy again, whatever was typed.
pub proof fn tidy_paths_stay(text: Seq<char>)
    requires
        path_of(text) is Ok,
    ensures
        tidy_path(path_of(text)->Ok_0),
        tight(path_of(text)->Ok_0),
        path_of(text)->Ok_0.len() > 0,
{
    lemma_typed_levels_tidy(text);
    lemma_levels_typed_again(typed_levels(text));
}

/// Every rule that can be entered has tidy paths.
pub proof fn entered_rules_are_tidy(text: Seq<char>)
    requires
        rule_of(text) is Ok,
    ensures
        rule_of(text)->Ok_0.entered(),
{
    let text = trimmed(text);
    match after_start(text, "rename "@) {
        Some(rest) => {
            let (from, to) = cut_text(rest, "->"@)->0;
            tidy_paths_stay(from);
            tidy_paths_stay(to);
        },
        None => {
            tidy_paths_stay(after_start(text, "delete "@)->0);
        },
    }
}

proof fn lemma_words()
    ensures
        "rename "@.len() == 7 && "rename "@[0] == 'r' && tight("rename "@.drop_last()),
        "delete "@.len() == 7 && "delete "@[0] == 'd',
        " -> "@ == seq![' ', '-', '>', ' '],
        "->"@ == seq!['-', '>'],
{
    reveal_strlit("rename ");
    reveal_strlit("delete ");
    reveal_strlit(" -> ");
    reveal_strlit("->");
    assert(" -> "@ =~= seq![' ', '-', '>', ' ']);
    assert("->"@ =~= seq!['-', '>']);
}

proof fn lemma_spaced(path: Seq<char>)
    requires
        tight(path),
        path.len() > 0,
    ensures
        trimmed(path + seq![' ']) == path,
        trimmed(seq![' '] + path) == path,
{
    let after = path + seq![' '];
    let before = seq![' '] + path;
    assert(after[0] == path[0]);
    assert(crate::text::trimmed_start(after) == after);
    assert(after.drop_last() =~= path);
    assert(crate::text::trimmed_end(path) == path);
    assert(crate::text::trimmed_start(path) == path);
    assert(before.skip(1) =~= path);
    assert(crate::text::trimmed_start(before) == crate::text::trimmed_start(path));
}

proof fn lemma_tidy(path: Seq<char>)
    requires
        tidy_path(path),
    ensures
        tight(path),
        path.len() > 0,
        path_of(path + seq![' ']) == Ok::<Seq<char>, Seq<char>>(path),
        path_of(seq![' '] + path) == Ok::<Seq<char>, Seq<char>>(path),
{
    tidy_paths_stay(path);
    lemma_spaced(path);
    crate::text::trimmed_is_tight(path);
}

proof fn lemma_arrow(from: Seq<char>, to: Seq<char>)
    requires
        found_at(from, "->"@) > from.len(),
    ensures
        cut_text(from + " -> "@ + to, "->"@) == Some((from + seq![' '], seq![' '] + to)),
{
    lemma_words();
    let rest = from + " -> "@ + to;
    let at = from.len() as int + 1;
    lemma_found_at(rest, "->"@);
    lemma_found_at(from, "->"@);
    assert(rest.skip(at).take(2) =~= "->"@);
    assert(starts(rest.skip(at), "->"@));
    assert forall|i: int| 0 <= i < at implies !starts(#[trigger] rest.skip(i), "->"@) by {
        if starts(rest.skip(i), "->"@) {
            let two = rest.skip(i).take(2);
            assert(two[0] == '-' && two[1] == '>');
            assert(rest[i] == '-' && rest[i + 1] == '>');
            if i + 1 < from.len() {
                assert(from[i] == '-' && from[i + 1] == '>');
                assert(from.skip(i).take(2) =~= "->"@);
                assert(starts(from.skip(i), "->"@));
            } else if i + 1 == from.len() {
                assert(rest[i + 1] == ' ');
            } else {
                assert(rest[i] == ' ');
            }
        }
    }
    assert(found_at(rest, "->"@) == at);
    assert(rest.take(at) =~= from + seq![' ']);
    assert(rest.skip(at + 2) =~= seq![' '] + to);
}

/// A rule is read back from the text it is kept as, unless the tag it renames has an arrow in its
/// name.
pub proof fn rule_is_read_back(rule: RuleView)
    requires
        rule.entered(),
        rule matches RuleView::Rename { from, to } ==> found_at(from, "->"@) > from.len(),
    ensures
        rule_of(rule.written()) == Ok::<RuleView, Seq<char>>(rule),
{
    lemma_words();
    let text = rule.written();
    match rule {
        RuleView::Rename { from, to } => {
            lemma_tidy(from);
            lemma_tidy(to);
            lemma_arrow(from, to);
            let rest = from + " -> "@ + to;
            assert(text =~= "rename "@ + rest);
            assert(text[0] == 'r');
            assert(text.last() == to.last());
            assert(tight(text));
            crate::text::trimmed_is_tight(text);
            assert(text.take(7) =~= "rename "@);
            assert(text.skip(7) =~= rest);
            assert(lies_within(from, from)) by {
                within_is_a_partial_order(from, from, from);
            }
        },
        RuleView::Delete { path } => {
            lemma_tidy(path);
            assert(text[0] == 'd');
            assert(text.last() == path.last());
            assert(tight(text));
            crate::text::trimmed_is_tight(text);
            assert(text.take(7) =~= "delete "@);
            assert(text.skip(7) =~= path);
            assert(after_start(text, "rename "@) is None) by {
                assert("rename "@[0] != text.take(7)[0]);
            }
        },
    }
}

/// Following a path through some rules and then through more is following it through all of them.
pub proof fn rules_compose(first: Seq<RuleView>, more: Seq<RuleView>, path: Seq<char>)
    ensures
        followed(first + more, path) == match followed(first, path) {
            Some(middle) => followed(more, middle),
            None => None,
        },
    decreases more.len(),
{
    if more.len() == 0 {
        assert(first + more =~= first);
    } else {
        rules_compose(first, more.drop_last(), path);
        assert((first + more).drop_last() =~= first + more.drop_last());
    }
}

/// Rules that were entered one after another: none is about a tag that an earlier one has taken
/// away, and none of what is renamed comes back to where it was.
pub open spec fn consistent(rules: Seq<RuleView>) -> bool {
    &&& forall|i: int, j: int|
        0 <= i < j < rules.len() ==> !lies_within(
            (#[trigger] rules[j]).from(),
            (#[trigger] rules[i]).from(),
        )
    &&& forall|i: int| 0 <= i < rules.len() ==> !leads_back(rules, #[trigger] rules[i])
}

proof fn lemma_not_taken(rules: Seq<RuleView>, from: Seq<char>, i: int)
    requires
        taken_by(rules, from) is None,
        0 <= i < rules.len(),
    ensures
        !lies_within(from, rules[i].from()),
    decreases rules.len(),
{
    if i < rules.len() - 1 {
        lemma_not_taken(rules.drop_last(), from, i);
    }
}

proof fn lemma_not_led_back(rules: Seq<RuleView>, upto: int, i: int)
    requires
        led_back(rules, upto) is None,
        0 <= i < upto,
    ensures
        !leads_back(rules, rules[i]),
    decreases upto,
{
    if i < upto - 1 {
        lemma_not_led_back(rules, upto - 1, i);
    }
}

/// A rule that is not refused leaves the rules as consistent as they were.
pub proof fn accepted_rules_stay_consistent(rules: Seq<RuleView>, rule: RuleView)
    requires
        consistent(rules),
        refused(rules, rule) is None,
    ensures
        consistent(rules.push(rule)),
{
    let all = rules.push(rule);
    assert forall|i: int, j: int| 0 <= i < j < all.len() implies !lies_within(
        (#[trigger] all[j]).from(),
        (#[trigger] all[i]).from(),
    ) by {
        if j == rules.len() {
            lemma_not_taken(rules, rule.from(), i);
        }
    }
    assert forall|i: int| 0 <= i < all.len() implies !leads_back(all, #[trigger] all[i]) by {
        lemma_not_led_back(all, all.len() as int, i);
    }
}

/// The deepest tags are trimmed, none is empty, none is below another, and every tag is one of
/// them or above one.
pub proof fn deepest_says_it_all(tags: Seq<Seq<char>>)
    ensures
        is_in_order(deepest_of(tags), deep_set(tags)),
        forall|a: Seq<char>, b: Seq<char>| #[trigger]
            deepest_of(tags).contains(a) && #[trigger] deepest_of(tags).contains(b) && lies_within(
                a,
                b,
            ) ==> a == b,
        forall|i: int|
            0 <= i < tags.len() && trimmed(#[trigger] tags[i]).len() > 0 ==> exists|d: Seq<char>| #[trigger]
                deepest_of(tags).contains(d) && lies_within(d, trimmed(tags[i])),
{
    let all = trimmed_all(tags);
    assert forall|y: Seq<char>| #[trigger] deep_set(tags).contains(y) implies all.contains(y) by {}
    order_exists(deep_set(tags), all);
    assert forall|a: Seq<char>, b: Seq<char>| #[trigger] deepest_of(tags).contains(a)
        && #[trigger] deepest_of(tags).contains(b) && lies_within(a, b) implies a == b by {
        assert(deep(tags, a));
        assert(deep(tags, b));
        assert(all.contains(a));
        if a.len() == b.len() {
            assert(a =~= b);
        }
    }
    assert forall|i: int| 0 <= i < tags.len() && trimmed(
        #[trigger] tags[i],
    ).len() > 0 implies exists|d: Seq<char>| #[trigger]
        deepest_of(tags).contains(d) && lies_within(d, trimmed(tags[i])) by {
        assert(all[i] == trimmed(tags[i]));
        assert(all.contains(all[i]));
        let d = lemma_deep_below(tags, all[i], longest(all));
        assert(deep_set(tags).contains(d));
        assert(deepest_of(tags).contains(d));
    }
}

/// The length of the longest of these texts.
spec fn longest(list: Seq<Seq<char>>) -> nat
    decreases list.len(),
{
    if list.len() == 0 {
        0
    } else if longest(list.drop_last()) > list.last().len() {
        longest(list.drop_last())
    } else {
        list.last().len()
    }
}

proof fn lemma_longest(list: Seq<Seq<char>>, x: Seq<char>)
    requires
        list.contains(x),
    ensures
        x.len() <= longest(list),
    decreases list.len(),
{
    let k = choose|k: int| 0 <= k < list.len() && list[k] == x;
    if k < list.len() - 1 {
        assert(list.drop_last()[k] == x);
        lemma_longest(list.drop_last(), x);
    }
}

proof fn lemma_deep_below(tags: Seq<Seq<char>>, path: Seq<char>, most: nat) -> (d: Seq<char>)
    requires
        trimmed_all(tags).contains(path),
        path.len() > 0,
        most == longest(trimmed_all(tags)),
    ensures
        deep(tags, d),
        lies_within(d, path),
    decreases most - path.len(),
{
    lemma_longest(trimmed_all(tags), path);
    within_is_a_partial_order(path, path, path);
    if deep(tags, path) {
        path
    } else {
        let other = choose|other: Seq<char>| #[trigger]
            trimmed_all(tags).contains(other) && other.len() > path.len() && lies_within(
                other,
                path,
            );
        lemma_longest(trimmed_all(tags), other);
        let d = lemma_deep_below(tags, other, most);
        within_is_a_partial_order(d, other, path);
        d
    }
}

/// The deepest of the deepest tags are the deepest tags.
pub proof fn deepest_is_final(tags: Seq<Seq<char>>)
    ensures
        deepest_of(deepest_of(tags)) == deepest_of(tags),
{
    deepest_says_it_all(tags);
    let out = deepest_of(tags);
    assert(trimmed_all(out) =~= out) by {
        assert forall|i: int| 0 <= i < out.len() implies trimmed(#[trigger] out[i]) == out[i] by {
            assert(out.contains(out[i]));
            assert(deep(tags, out[i]));
            let k = choose|k: int| 0 <= k < tags.len() && trimmed_all(tags)[k] == out[i];
            crate::text::trimmed_is_tight(tags[k]);
            crate::text::trimmed_is_tight(out[i]);
        }
    }
    assert forall|x: Seq<char>| #[trigger] out.contains(x) <==> deep_set(out).contains(x) by {
        if out.contains(x) {
            assert(deep(tags, x));
            assert(deep(out, x)) by {
                assert forall|other: Seq<char>| #[trigger] trimmed_all(out).contains(other)
                    && other.len() > x.len() implies !lies_within(other, x) by {
                    assert(out.contains(other));
                }
            }
        }
    }
    assert(is_in_order(out, deep_set(out)));
    in_order_is(out, deep_set(out));
}

/// Without rules a photo keeps its deepest tags.
pub proof fn no_rules_keep_the_deepest(tags: Seq<Seq<char>>)
    ensures
        mapped(Seq::empty(), tags) == deepest_of(tags),
{
    lemma_follow_none(deepest_of(tags));
    deepest_is_final(tags);
}

proof fn lemma_follow_none(list: Seq<Seq<char>>)
    ensures
        followed_all(Seq::empty(), list) == list,
    decreases list.len(),
{
    if list.len() > 0 {
        lemma_follow_none(list.drop_last());
        assert(list.drop_last().push(list.last()) =~= list);
    } else {
        assert(followed_all(Seq::empty(), list) =~= list);
    }
}

// ---- What holds of rules and suggestions -------------------------------------------------------

/// A rename puts the new name in place of the old one, of the tag and of all below it, and leaves
/// every other tag; a delete takes the tag and all below it away, and leaves every other tag.
pub proof fn a_rule_moves_a_tag_and_all_below_it(
    from: Seq<char>,
    to: Seq<char>,
    rest: Seq<char>,
    other: Seq<char>,
)
    requires
        other != from,
        !starts(other, from + seq!['/']),
    ensures
        (RuleView::Rename { from, to }).map(from) == Some(to),
        (RuleView::Rename { from, to }).map(from + seq!['/'] + rest) == Some(to + seq!['/'] + rest),
        (RuleView::Rename { from, to }).map(other) == Some(other),
        (RuleView::Delete { path: from }).map(from) is None,
        (RuleView::Delete { path: from }).map(from + seq!['/'] + rest) is None,
        (RuleView::Delete { path: from }).map(other) == Some(other),
{
    let below = from + seq!['/'] + rest;
    assert(from.take(from.len() as int) =~= from);
    assert(below.take(from.len() as int) =~= from);
    assert(from.skip(from.len() as int) =~= Seq::empty());
    assert(to + Seq::<char>::empty() =~= to);
    assert(below.skip(from.len() as int) =~= seq!['/'] + rest);
    assert(to + (seq!['/'] + rest) =~= to + seq!['/'] + rest);
    if lies_within(other, from) {
        if other.len() == from.len() {
            assert(other.take(from.len() as int) =~= other);
        } else {
            assert(other.take(from.len() as int + 1) =~= from + seq!['/']);
        }
    }
}

/// The tags of a photo that are followed through the rules are those that are left of them, in
/// their order, each where the rules take it.
pub proof fn every_tag_goes_where_the_rules_take_it(rules: Seq<RuleView>, paths: Seq<Seq<char>>)
    ensures
        followed_all(rules, paths) == paths.filter(
            |path: Seq<char>| followed(rules, path) is Some,
        ).map_values(|path: Seq<char>| followed(rules, path)->0),
    decreases paths.len(),
{
    reveal(Seq::filter);
    let kept = |path: Seq<char>| followed(rules, path) is Some;
    let end = |path: Seq<char>| followed(rules, path)->0;
    if paths.len() == 0 {
        assert(paths.filter(kept).map_values(end) =~= Seq::empty());
    } else {
        let front = paths.drop_last();
        every_tag_goes_where_the_rules_take_it(rules, front);
        if kept(paths.last()) {
            assert(paths.filter(kept).map_values(end) =~= front.filter(kept).map_values(end).push(
                end(paths.last()),
            ));
        }
    }
}

/// One rule alone takes a path where it says.
pub proof fn one_rule_is_followed(rule: RuleView, path: Seq<char>)
    ensures
        followed(seq![rule], path) == rule.map(path),
        followed(Seq::empty(), path) == Some(path),
{
    assert(seq![rule].drop_last() =~= Seq::empty());
    assert(followed(Seq::empty(), path) == Some(path));
}

/// Where a photo's tag ends up is among its tags after the rules, or a tag below it is; and every
/// tag it then has is where one of its tags ended up.
pub proof fn a_photo_has_what_the_rules_leave(rules: Seq<RuleView>, tags: Seq<Seq<char>>)
    ensures
        forall|i: int|
            0 <= i < deepest_of(tags).len() && followed(rules, #[trigger] deepest_of(tags)[i])
                is Some && trimmed(followed(rules, deepest_of(tags)[i])->0).len() > 0 ==> exists|
                d: Seq<char>,
            | #[trigger]
                mapped(rules, tags).contains(d) && lies_within(
                    d,
                    trimmed(followed(rules, deepest_of(tags)[i])->0),
                ),
        forall|d: Seq<char>| #[trigger]
            mapped(rules, tags).contains(d) ==> exists|i: int|
                0 <= i < deepest_of(tags).len() && followed(rules, #[trigger] deepest_of(tags)[i])
                    is Some && d == trimmed(followed(rules, deepest_of(tags)[i])->0),
{
    let paths = deepest_of(tags);
    let ends = followed_all(rules, paths);
    deepest_says_it_all(ends);
    assert forall|i: int|
        0 <= i < paths.len() && followed(rules, #[trigger] paths[i]) is Some && trimmed(
            followed(rules, paths[i])->0,
        ).len() > 0 implies exists|d: Seq<char>| #[trigger]
        mapped(rules, tags).contains(d) && lies_within(d, trimmed(followed(rules, paths[i])->0)) by {
        lemma_followed_among(rules, paths, followed(rules, paths[i])->0);
        let k = choose|k: int| 0 <= k < ends.len() && ends[k] == followed(rules, paths[i])->0;
        assert(trimmed(ends[k]).len() > 0);
        let d = choose|d: Seq<char>| #[trigger]
            deepest_of(ends).contains(d) && lies_within(d, trimmed(ends[k]));
        assert(mapped(rules, tags).contains(d));
    }
    assert forall|d: Seq<char>| #[trigger] mapped(rules, tags).contains(d) implies exists|i: int|
        0 <= i < paths.len() && followed(rules, #[trigger] paths[i]) is Some && d == trimmed(
            followed(rules, paths[i])->0,
        ) by {
        assert(deep(ends, d));
        let k = choose|k: int| 0 <= k < trimmed_all(ends).len() && trimmed_all(ends)[k] == d;
        assert(ends.contains(ends[k]));
        lemma_followed_among(rules, paths, ends[k]);
    }
}

proof fn lemma_followed_among(rules: Seq<RuleView>, paths: Seq<Seq<char>>, end: Seq<char>)
    ensures
        followed_all(rules, paths).contains(end) <==> exists|i: int|
            0 <= i < paths.len() && followed(rules, #[trigger] paths[i]) == Some(end),
    decreases paths.len(),
{
    if paths.len() > 0 {
        let front = paths.drop_last();
        let before = followed_all(rules, front);
        lemma_followed_among(rules, front, end);
        assert forall|i: int| 0 <= i < front.len() implies #[trigger] front[i] == paths[i] by {}
        match followed(rules, paths.last()) {
            Some(path) => {
                crate::browse::lemma_push_contains(before, path, end);
            },
            None => {},
        }
        if exists|i: int| 0 <= i < paths.len() && followed(rules, #[trigger] paths[i]) == Some(end) {
            let i = choose|i: int|
                0 <= i < paths.len() && followed(rules, #[trigger] paths[i]) == Some(end);
            if i < front.len() {
                assert(followed(rules, front[i]) == Some(end));
            }
        }
        if exists|i: int| 0 <= i < front.len() && followed(rules, #[trigger] front[i]) == Some(end) {
            let i = choose|i: int|
                0 <= i < front.len() && followed(rules, #[trigger] front[i]) == Some(end);
            assert(followed(rules, paths[i]) == Some(end));
        }
        if followed(rules, paths.last()) == Some(end) {
            assert(followed(rules, paths[paths.len() - 1]) == Some(end));
        }
    }
}

/// A rule is told to touch the photos that have a tag it moves or takes away, after the rules
/// before it.
pub proof fn the_photos_a_rule_touches_are_counted(
    before: Seq<RuleView>,
    rule: RuleView,
    photos: Seq<Seq<Seq<char>>>,
)
    ensures
        touched_of(before, rule, photos) == photos.filter(
            |tags: Seq<Seq<char>>|
                exists|i: int|
                    0 <= i < mapped(before, tags).len() && rule.map(
                        #[trigger] mapped(before, tags)[i],
                    ) != Some(mapped(before, tags)[i]),
        ).len(),
    decreases photos.len(),
{
    reveal(Seq::filter);
    if photos.len() > 0 {
        the_photos_a_rule_touches_are_counted(before, rule, photos.drop_last());
    }
}

/// A typed path is its levels without the white space around them, all of them, none empty and
/// none with a bar.
pub proof fn a_path_has_the_levels_typed(text: Seq<char>)
    ensures
        path_of(text) matches Ok(path) ==> {
            let typed = split(trimmed(text), '/');
            let levels = split(path, '/');
            &&& levels.len() == typed.len()
            &&& forall|i: int|
                0 <= i < levels.len() ==> (#[trigger] levels[i]) == trimmed(typed[i])
                    && levels[i].len() > 0 && !levels[i].contains('|')
        },
        path_of(text) is Err ==> exists|i: int|
            0 <= i < split(trimmed(text), '/').len() && (trimmed(
                #[trigger] split(trimmed(text), '/')[i],
            ).len() == 0 || trimmed(split(trimmed(text), '/')[i]).contains('|')),
{
    let levels = typed_levels(text);
    lemma_typed_levels_tidy(text);
    lemma_barred(levels);
    if path_of(text) is Ok {
        crate::text::joined_parts_split_again(levels, '/');
    } else if has_empty(levels) {
        let i = choose|i: int| 0 <= i < levels.len() && (#[trigger] levels[i]).len() == 0;
        assert(trimmed(split(trimmed(text), '/')[i]).len() == 0);
    } else {
        let i = choose|i: int| 0 <= i < levels.len() && (#[trigger] levels[i]).contains('|');
        assert(trimmed(split(trimmed(text), '/')[i]).contains('|'));
    }
}

proof fn lemma_barred(levels: Seq<Seq<char>>)
    ensures
        first_barred(levels) is None <==> (forall|i: int|
            0 <= i < levels.len() ==> !(#[trigger] levels[i]).contains('|')),
    decreases levels.len(),
{
    if levels.len() > 0 {
        let front = levels.drop_last();
        lemma_barred(front);
        assert forall|i: int| 0 <= i < front.len() implies #[trigger] front[i] == levels[i] by {}
        assert(levels[levels.len() - 1] == levels.last());
        if first_barred(levels) is None {
            assert forall|i: int| 0 <= i < levels.len() implies !(
            #[trigger] levels[i]).contains('|') by {
                if i < front.len() {
                    assert(!front[i].contains('|'));
                }
            }
        }
        if forall|i: int| 0 <= i < levels.len() ==> !(#[trigger] levels[i]).contains('|') {
            assert forall|i: int| 0 <= i < front.len() implies !(
            #[trigger] front[i]).contains('|') by {
                assert(!levels[i].contains('|'));
            }
        }
    }
}

/// Of some spellings the one most photos carry is one of them, and no other is carried by more.
pub proof fn no_spelling_is_carried_by_more(nodes: Seq<(Seq<char>, int)>, list: Seq<Seq<char>>)
    requires
        list.len() > 0,
    ensures
        list.contains(most_carried(nodes, list)),
        forall|i: int|
            0 <= i < list.len() ==> photos_under(nodes, #[trigger] list[i]) <= photos_under(
                nodes,
                most_carried(nodes, list),
            ),
        list.contains(merge_into(nodes, list)),
        list.contains(lowercased(list[0])) ==> merge_into(nodes, list) == lowercased(list[0]),
        !list.contains(lowercased(list[0])) ==> merge_into(nodes, list) == most_carried(nodes, list),
    decreases list.len(),
{
    if list.len() == 1 {
        assert(list[0] == most_carried(nodes, list));
    } else {
        let front = list.drop_last();
        no_spelling_is_carried_by_more(nodes, front);
        assert forall|i: int| 0 <= i < front.len() implies #[trigger] front[i] == list[i] by {}
        let best = most_carried(nodes, front);
        let k = choose|k: int| 0 <= k < front.len() && front[k] == best;
        assert(list[k] == best);
        assert(list[list.len() - 1] == list.last());
        assert forall|i: int| 0 <= i < list.len() implies photos_under(nodes, #[trigger] list[i])
            <= photos_under(nodes, most_carried(nodes, list)) by {
            if i < front.len() {
                assert(front[i] == list[i]);
            }
        }
    }
}

/// Of two tags that look alike the one that fewer photos carry is offered to be renamed into the
/// other; what is offered for a leaf of the mixed bucket moves it below the topics.
pub proof fn the_rarer_tag_is_renamed_into_the_other(
    nodes: Seq<(Seq<char>, int)>,
    pair: (Seq<char>, Seq<char>),
    name: Seq<char>,
)
    ensures
        alike_offer(nodes, pair).rules.len() <= 1,
        photos_under(nodes, pair.0) > photos_under(nodes, pair.1) ==> alike_offer(
            nodes,
            pair,
        ).photos == photos_under(nodes, pair.1) && alike_offer(nodes, pair).rules == renames(
            seq![pair.1],
            pair.0,
        ),
        photos_under(nodes, pair.1) > photos_under(nodes, pair.0) ==> alike_offer(
            nodes,
            pair,
        ).photos == photos_under(nodes, pair.0) && alike_offer(nodes, pair).rules == renames(
            seq![pair.0],
            pair.1,
        ),
        mixed_offer(nodes, name).photos == photos_under(nodes, "mixed"@ + "/"@ + name),
        mixed_offer(nodes, name).rules == renames(
            seq!["mixed"@ + "/"@ + name],
            "topics"@ + "/"@ + name,
        ),
{
    let (one, other) = pair;
    lemma_renames(seq![one], other);
    lemma_renames(seq![other], one);
}

proof fn lemma_renames(list: Seq<Seq<char>>, into: Seq<char>)
    ensures
        renames(list, into).len() <= list.len(),
        forall|i: int|
            0 <= i < renames(list, into).len() ==> exists|k: int|
                0 <= k < list.len() && rename_of(#[trigger] list[k], into) == Ok::<
                    RuleView,
                    Seq<char>,
                >(#[trigger] renames(list, into)[i]),
    decreases list.len(),
{
    if list.len() > 0 {
        let front = list.drop_last();
        let before = renames(front, into);
        let all = renames(list, into);
        lemma_renames(front, into);
        assert forall|i: int| 0 <= i < all.len() implies exists|k: int|
            0 <= k < list.len() && rename_of(#[trigger] list[k], into) == Ok::<RuleView, Seq<char>>(
                #[trigger] all[i],
            ) by {
            if i < before.len() {
                assert(all[i] == before[i]);
                let k = choose|k: int|
                    0 <= k < front.len() && rename_of(#[trigger] front[k], into) == Ok::<
                        RuleView,
                        Seq<char>,
                    >(before[i]);
                assert(list[k] == front[k]);
            } else {
                assert(list[list.len() - 1] == list.last());
            }
        }
    }
}

/// What is offered to merge spellings renames each of the others into the one that stays, and into
/// nothing else.
pub proof fn twins_are_merged_into_one(
    nodes: Seq<(Seq<char>, int)>,
    photos: Seq<Seq<Seq<char>>>,
    list: Seq<Seq<char>>,
    i: int,
)
    requires
        list.len() > 0,
        0 <= i < twin_offer(nodes, photos, list).rules.len(),
    ensures
        exists|k: int|
            0 <= k < list.len() && #[trigger] list[k] != merge_into(nodes, list) && rename_of(
                list[k],
                merge_into(nodes, list),
            ) == Ok::<RuleView, Seq<char>>(twin_offer(nodes, photos, list).rules[i]),
        twin_offer(nodes, photos, list).photos == carriers_of_any(
            photos,
            list.filter(|path: Seq<char>| path != merge_into(nodes, list)),
        ),
{
    let into = merge_into(nodes, list);
    let moved = all_but(list, into);
    lemma_renames(moved, into);
    lemma_all_but(list, into);
    let m = choose|m: int|
        0 <= m < moved.len() && rename_of(#[trigger] moved[m], into) == Ok::<RuleView, Seq<char>>(
            renames(moved, into)[i],
        );
    assert(moved.contains(moved[m]));
    let k = choose|k: int| 0 <= k < list.len() && list[k] == moved[m];
    assert(list[k] != into);
}

proof fn lemma_all_but(list: Seq<Seq<char>>, one: Seq<char>)
    ensures
        all_but(list, one) == list.filter(|path: Seq<char>| path != one),
        forall|x: Seq<char>| #[trigger]
            all_but(list, one).contains(x) ==> list.contains(x) && x != one,
    decreases list.len(),
{
    reveal(Seq::filter);
    if list.len() > 0 {
        let front = list.drop_last();
        let before = all_but(front, one);
        lemma_all_but(front, one);
        assert forall|x: Seq<char>| #[trigger] all_but(list, one).contains(x) implies list.contains(
            x,
        ) && x != one by {
            if list.last() != one {
                crate::browse::lemma_push_contains(before, list.last(), x);
            }
            if before.contains(x) {
                let k = choose|k: int| 0 <= k < front.len() && front[k] == x;
                assert(list[k] == x);
            } else {
                assert(list[list.len() - 1] == x);
            }
        }
    }
}

/// Exactly the suggestions that were not left alone, have a rule and can be taken are offered, in
/// the order they were found.
pub proof fn what_was_left_alone_is_not_offered_again(
    rules: Seq<RuleView>,
    left: Seq<Seq<char>>,
    found: Seq<SuggestionView>,
)
    ensures
        worth_offering(rules, left, found) == found.filter(
            |one: SuggestionView|
                !left.contains(one.key) && one.rules.len() > 0 && accepted(rules, one.rules),
        ),
    decreases found.len(),
{
    reveal(Seq::filter);
    if found.len() > 0 {
        what_was_left_alone_is_not_offered_again(rules, left, found.drop_last());
    }
}

/// A root on its own is left out exactly where the tree has tags below it.
pub proof fn a_root_alone_says_nothing_where_tags_are_below(
    tags: Seq<Seq<char>>,
    nodes: Seq<(Seq<char>, int)>,
)
    ensures
        kept_roots(tags, nodes) == tags.filter(
            |tag: Seq<char>| tag.contains('/') || children_of(nodes, tag).len() == 0,
        ),
    decreases tags.len(),
{
    reveal(Seq::filter);
    if tags.len() > 0 {
        a_root_alone_says_nothing_where_tags_are_below(tags.drop_last(), nodes);
    }
}

/// A rule is taken exactly where it is not there yet, no rule before it takes its tag away, and no
/// tag that is renamed comes back to where it was.
pub proof fn a_rule_is_taken_where_nothing_stands_against_it(rules: Seq<RuleView>, rule: RuleView)
    ensures
        refused(rules, rule) is None <==> {
            &&& !rules.contains(rule)
            &&& forall|i: int|
                0 <= i < rules.len() ==> !lies_within(rule.from(), (#[trigger] rules[i]).from())
            &&& forall|i: int|
                0 <= i <= rules.len() && (#[trigger] rules.push(rule)[i]) is Rename ==> (followed(
                    rules.push(rule),
                    rules.push(rule)[i].from(),
                ) matches Some(end) ==> !lies_within(end, rules.push(rule)[i].from()))
        },
{
    let all = rules.push(rule);
    lemma_taken_by(rules, rule.from());
    lemma_led_back(all, all.len() as int);
    if refused(rules, rule) is None {
        assert forall|i: int|
            0 <= i <= rules.len() && (#[trigger] rules.push(rule)[i]) is Rename implies (followed(
            rules.push(rule),
            rules.push(rule)[i].from(),
        ) matches Some(end) ==> !lies_within(end, rules.push(rule)[i].from())) by {
            assert(!leads_back(all, all[i]));
        }
    } else if !rules.contains(rule) && taken_by(rules, rule.from()) is None {
        let i = choose|i: int| 0 <= i < all.len() && leads_back(all, #[trigger] all[i]);
        assert(rules.push(rule)[i] is Rename);
    }
}

proof fn lemma_taken_by(rules: Seq<RuleView>, from: Seq<char>)
    ensures
        taken_by(rules, from) is None <==> (forall|i: int|
            0 <= i < rules.len() ==> !lies_within(from, (#[trigger] rules[i]).from())),
    decreases rules.len(),
{
    if rules.len() > 0 {
        let front = rules.drop_last();
        lemma_taken_by(front, from);
        assert(rules.last() == rules[rules.len() - 1]);
        if taken_by(rules, from) is None {
            assert forall|i: int| 0 <= i < rules.len() implies !lies_within(
                from,
                (#[trigger] rules[i]).from(),
            ) by {
                if i < front.len() {
                    assert(front[i] == rules[i]);
                }
            }
        } else if taken_by(front, from) is Some {
            let i = choose|i: int| 0 <= i < front.len() && lies_within(
                from,
                (#[trigger] front[i]).from(),
            );
            assert(rules[i] == front[i]);
        }
    }
}

proof fn lemma_led_back(rules: Seq<RuleView>, upto: int)
    requires
        0 <= upto <= rules.len(),
    ensures
        led_back(rules, upto) is None <==> (forall|i: int|
            0 <= i < upto ==> !leads_back(rules, #[trigger] rules[i])),
    decreases upto,
{
    if upto > 0 {
        lemma_led_back(rules, upto - 1);
        assert(rules[upto - 1] == rules[upto - 1]);
    }
}

} // verus!
