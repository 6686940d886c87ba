//! What the gallery browses by: the countries and their events, and the tag tree, each with
//! how many photos it holds. Counts are of the whole library, so they do not move while the
//! other controls are changed.

use vstd::prelude::*;

use crate::order::{
    in_order, in_order_is, increasing, insert, place, precedes, precedes_is_irreflexive,
    precedes_is_total, sorted_set,
};
use crate::text::{
    after_start, chars, copy, copy_list, cut_last, empty, holds_char, is_digit, lowercase,
    lowercased, part, same, split_last, starts, strip_start, text, views,
};

verus! {

// ---- Tag paths ---------------------------------------------------------------------------------

/// Whether a tag path is a branch or below it.
pub open spec fn lies_within(path: Seq<char>, branch: Seq<char>) -> bool {
    starts(path, branch) && (path.len() == branch.len() || path[branch.len() as int] == '/')
}

/// The levels above a path that end before its first so many characters do.
pub open spec fn levels_above(path: Seq<char>, upto: nat) -> Seq<Seq<char>>
    decreases upto,
{
    if upto == 0 {
        Seq::empty()
    } else {
        let before = levels_above(path, (upto - 1) as nat);
        if path[upto - 1] == '/' {
            before.push(path.take(upto - 1))
        } else {
            before
        }
    }
}

/// `a/b/c` is `a`, `a/b` and `a/b/c`.
pub open spec fn levels_of(path: Seq<char>) -> Seq<Seq<char>> {
    levels_above(path, path.len()).push(path)
}

/// `a/b/c` is `a`, `a/b` and `a/b/c`.
pub fn levels(path: &str) -> (levels: Vec<String>)
    ensures
        views(levels@) == levels_of(path@),
{
    let list = chars(path);
    let mut levels: Vec<String> = Vec::new();
    assert(views(levels@) =~= levels_above(path@, 0));
    for i in 0..list.len()
        invariant
            list@ == path@,
            views(levels@) == levels_above(path@, i as nat),
    {
        let ghost before = views(levels@);
        if list[i] == '/' {
            levels.push(part(&list, 0, i));
            assert(list@.subrange(0, i as int) =~= path@.take(i as int));
            assert(views(levels@) =~= before.push(path@.take(i as int)));
        }
    }
    let ghost before = views(levels@);
    levels.push(copy(path));
    assert(views(levels@) =~= before.push(path@));
    levels
}

proof fn lemma_levels_above(path: Seq<char>, upto: nat, branch: Seq<char>)
    requires
        upto <= path.len(),
    ensures
        levels_above(path, upto).contains(branch) <==> branch.len() < upto && lies_within(
            path,
            branch,
        ),
    decreases upto,
{
    if upto > 0 {
        let before = levels_above(path, (upto - 1) as nat);
        let now = levels_above(path, upto);
        lemma_levels_above(path, (upto - 1) as nat, branch);
        if path[upto - 1] == '/' {
            let last = path.take(upto - 1);
            if now.contains(branch) {
                let k = choose|k: int| 0 <= k < now.len() && now[k] == branch;
                if k < before.len() {
                    assert(before[k] == branch);
                }
            }
            if before.contains(branch) {
                let k = choose|k: int| 0 <= k < before.len() && before[k] == branch;
                assert(now[k] == branch);
            }
            assert(now[before.len() as int] == last);
            if branch.len() == upto - 1 && lies_within(path, branch) {
                assert(branch =~= last);
            }
        }
    }
}

/// The levels of a path are the branches it is within.
pub proof fn levels_are_the_branches_above(path: Seq<char>, branch: Seq<char>)
    ensures
        levels_of(path).contains(branch) <==> lies_within(path, branch),
{
    let before = levels_above(path, path.len());
    let all = levels_of(path);
    lemma_levels_above(path, path.len(), branch);
    assert(all[before.len() as int] == path);
    assert(path.take(path.len() as int) =~= path);
    if all.contains(branch) {
        let k = choose|k: int| 0 <= k < all.len() && all[k] == branch;
        if k < before.len() {
            assert(before[k] == branch);
        }
    }
    if before.contains(branch) {
        let k = choose|k: int| 0 <= k < before.len() && before[k] == branch;
        assert(all[k] == branch);
    }
    if lies_within(path, branch) && branch.len() == path.len() {
        assert(branch =~= path);
    }
}

/// Being within a branch is a partial order: a path is within itself, two paths within each other
/// are one, and what is within a branch is within every branch above it.
pub proof fn within_is_a_partial_order(a: Seq<char>, b: Seq<char>, c: Seq<char>)
    ensures
        lies_within(a, a),
        lies_within(a, b) && lies_within(b, a) ==> a == b,
        lies_within(a, b) && lies_within(b, c) ==> lies_within(a, c),
{
    assert(a.take(a.len() as int) =~= a);
    if lies_within(a, b) && lies_within(b, a) {
        assert(a =~= b);
    }
    if lies_within(a, b) && lies_within(b, c) {
        assert(a.take(c.len() as int) =~= b.take(c.len() as int));
        if a.len() > c.len() && b.len() > c.len() {
            assert(a.take(b.len() as int)[c.len() as int] == a[c.len() as int]);
        } else if b.len() == c.len() {
            assert(b =~= c);
        }
    }
}

// ---- The tag tree ------------------------------------------------------------------------------

/// The paths of a tree, in its order.
pub open spec fn paths(nodes: Seq<(Seq<char>, int)>) -> Seq<Seq<char>> {
    Seq::new(nodes.len(), |i: int| nodes[i].0)
}

/// How many photos a tree counts for a path.
pub open spec fn count_of(nodes: Seq<(Seq<char>, int)>, path: Seq<char>) -> Option<int>
    decreases nodes.len(),
{
    if nodes.len() == 0 {
        None
    } else if nodes.last().0 == path {
        Some(nodes.last().1)
    } else {
        count_of(nodes.drop_last(), path)
    }
}

/// What lists of tags hold.
pub open spec fn tag_lists(photos: Seq<Vec<String>>) -> Seq<Seq<Seq<char>>> {
    Seq::new(photos.len(), |i: int| views(photos[i]@))
}

/// Whether one of these tags is the branch or below it.
pub open spec fn carries(tags: Seq<Seq<char>>, branch: Seq<char>) -> bool {
    exists|i: int| 0 <= i < tags.len() && lies_within(#[trigger] tags[i], branch)
}

/// How many photos carry the branch or a tag below it.
pub open spec fn carriers(photos: Seq<Seq<Seq<char>>>, branch: Seq<char>) -> int
    decreases photos.len(),
{
    if photos.len() == 0 {
        0
    } else {
        carriers(photos.drop_last(), branch) + if carries(photos.last(), branch) {
            1int
        } else {
            0int
        }
    }
}

/// Whether one of these tags is one of the branches or below it.
pub open spec fn carries_any(tags: Seq<Seq<char>>, branches: Seq<Seq<char>>) -> bool {
    exists|i: int| 0 <= i < branches.len() && carries(tags, #[trigger] branches[i])
}

/// How many photos carry any of the branches or a tag below one; a photo that carries several
/// counts once.
pub open spec fn carriers_of_any(photos: Seq<Seq<Seq<char>>>, branches: Seq<Seq<char>>) -> int
    decreases photos.len(),
{
    if photos.len() == 0 {
        0
    } else {
        carriers_of_any(photos.drop_last(), branches) + if carries_any(photos.last(), branches) {
            1int
        } else {
            0int
        }
    }
}

/// Every tag path and every level above it, with how many photos carry it or a tag below it.
#[derive(Debug)]
pub struct TagTree {
    paths: Vec<String>,
    counts: Vec<i64>,
    /// The tags of each photo that was counted.
    lists: Vec<Vec<String>>,
}

impl TagTree {
    #[verifier::type_invariant]
    closed spec fn well_formed(self) -> bool {
        &&& self.paths@.len() == self.counts@.len()
        &&& increasing(views(self.paths@))
        &&& self.lists@.len() <= i64::MAX
    }

    /// The paths in order, each with its count.
    pub closed spec fn view(self) -> Seq<(Seq<char>, int)> {
        Seq::new(self.paths@.len(), |i: int| (self.paths@[i]@, self.counts@[i] as int))
    }

    /// The tags of each photo that was counted.
    pub closed spec fn photos(self) -> Seq<Seq<Seq<char>>> {
        tag_lists(self.lists@)
    }
}

/// Two trees are the same where their paths and counts are.
impl PartialEq for TagTree {
    fn eq(&self, other: &TagTree) -> (equal: bool) {
        proof {
            use_type_invariant(self);
            use_type_invariant(other);
        }
        if self.paths.len() != other.paths.len() {
            assert(self@.len() != other@.len());
            return false;
        }
        for i in 0..self.paths.len()
            invariant
                self.paths@.len() == other.paths@.len(),
                self.paths@.len() == self.counts@.len(),
                other.paths@.len() == other.counts@.len(),
                forall|j: int| 0 <= j < i ==> self@[j] == other@[j],
        {
            if !same(&self.paths[i], &other.paths[i]) || self.counts[i] != other.counts[i] {
                assert(self@[i as int] != other@[i as int]);
                return false;
            }
            assert(self@[i as int] == other@[i as int]);
        }
        assert(self@ =~= other@);
        true
    }
}

impl vstd::std_specs::cmp::PartialEqSpecImpl for TagTree {
    open spec fn obeys_eq_spec() -> bool {
        true
    }

    open spec fn eq_spec(&self, other: &TagTree) -> bool {
        self@ == other@
    }
}

/// The lists once more.
fn copy_lists(lists: &[Vec<String>]) -> (copied: Vec<Vec<String>>)
    ensures
        tag_lists(copied@) == tag_lists(lists@),
        copied@.len() == lists@.len(),
{
    let mut copied: Vec<Vec<String>> = Vec::new();
    for i in 0..lists.len()
        invariant
            tag_lists(copied@) == tag_lists(lists@).take(i as int),
            copied@.len() == i,
    {
        let ghost before = tag_lists(copied@);
        let list = copy_list(&lists[i]);
        copied.push(list);
        assert(tag_lists(copied@) =~= before.push(views(list@)));
        assert(tag_lists(copied@) =~= tag_lists(lists@).take(i + 1));
    }
    assert(tag_lists(lists@).take(lists@.len() as int) =~= tag_lists(lists@));
    copied
}

impl Clone for TagTree {
    fn clone(&self) -> (tree: TagTree)
        ensures
            tree@ == self@,
            tree.photos() == self.photos(),
    {
        proof {
            use_type_invariant(self);
        }
        let mut counts: Vec<i64> = Vec::new();
        for i in 0..self.counts.len()
            invariant
                counts@ == self.counts@.take(i as int),
        {
            counts.push(self.counts[i]);
            assert(counts@ =~= self.counts@.take(i + 1));
        }
        let paths = copy_list(&self.paths);
        assert(views(paths@).len() == views(self.paths@).len());
        let tree = TagTree { paths, counts, lists: copy_lists(&self.lists) };
        proof {
            assert forall|i: int| 0 <= i < self.paths@.len() implies tree@[i] == self@[i] by {
                assert(views(tree.paths@)[i] == views(self.paths@)[i]);
            }
            assert(tree@ =~= self@);
        }
        tree
    }
}

impl Default for TagTree {
    fn default() -> (tree: TagTree)
        ensures
            tree@ == Seq::<(Seq<char>, int)>::empty(),
            tree.photos() == Seq::<Seq<Seq<char>>>::empty(),
    {
        let tree = TagTree { paths: Vec::new(), counts: Vec::new(), lists: Vec::new() };
        assert(tree@ =~= Seq::<(Seq<char>, int)>::empty());
        assert(tree.photos() =~= Seq::<Seq<Seq<char>>>::empty());
        tree
    }
}

/// The levels of all of these paths.
fn all_levels(paths: &[String]) -> (list: Vec<String>)
    ensures
        increasing(views(list@)),
        forall|p: Seq<char>| #[trigger] views(list@).contains(p) <==> carries(views(paths@), p),
{
    let mut list: Vec<String> = Vec::new();
    for i in 0..paths.len()
        invariant
            increasing(views(list@)),
            forall|p: Seq<char>| #[trigger]
                views(list@).contains(p) <==> carries(views(paths@).take(i as int), p),
    {
        let levels = levels(&paths[i]);
        let ghost before = views(paths@).take(i as int);
        for j in 0..levels.len()
            invariant
                i < paths@.len(),
                before == views(paths@).take(i as int),
                views(levels@) == levels_of(paths@[i as int]@),
                increasing(views(list@)),
                forall|p: Seq<char>| #[trigger]
                    views(list@).contains(p) <==> carries(before, p) || views(levels@).take(
                        j as int,
                    ).contains(p),
        {
            let ghost some = views(levels@).take(j as int);
            let ghost more = views(levels@).take(j + 1);
            insert(&mut list, levels[j].clone());
            assert(more =~= some.push(levels@[j as int]@));
            assert forall|p: Seq<char>| #[trigger] views(list@).contains(p) <==> carries(before, p)
                || more.contains(p) by {
                lemma_push_contains(some, levels@[j as int]@, p);
            }
        }
        assert(views(levels@).take(levels@.len() as int) =~= views(levels@));
        let ghost after = views(paths@).take(i + 1);
        assert forall|p: Seq<char>| #[trigger] views(list@).contains(p) <==> carries(after, p) by {
            levels_are_the_branches_above(paths@[i as int]@, p);
            lemma_carries_push(before, paths@[i as int]@, p);
            assert(after =~= before.push(paths@[i as int]@));
        }
    }
    assert(views(paths@).take(paths@.len() as int) =~= views(paths@));
    list
}

pub proof fn lemma_push_contains<A>(list: Seq<A>, item: A, x: A)
    ensures
        list.push(item).contains(x) <==> list.contains(x) || x == item,
{
    let more = list.push(item);
    if list.contains(x) {
        let k = choose|k: int| 0 <= k < list.len() && list[k] == x;
        assert(more[k] == x);
    }
    if more.contains(x) {
        let k = choose|k: int| 0 <= k < more.len() && more[k] == x;
        if k < list.len() {
            assert(list[k] == x);
        }
    }
    assert(more[list.len() as int] == item);
}

proof fn lemma_carries_push(tags: Seq<Seq<char>>, tag: Seq<char>, branch: Seq<char>)
    ensures
        carries(tags.push(tag), branch) <==> carries(tags, branch) || lies_within(tag, branch),
{
    let more = tags.push(tag);
    if carries(tags, branch) {
        let k = choose|k: int| 0 <= k < tags.len() && lies_within(#[trigger] tags[k], branch);
        assert(lies_within(more[k], branch));
    }
    if carries(more, branch) {
        let k = choose|k: int| 0 <= k < more.len() && lies_within(#[trigger] more[k], branch);
        if k < tags.len() {
            assert(lies_within(tags[k], branch));
        }
    }
    if lies_within(tag, branch) {
        assert(lies_within(more[tags.len() as int], branch));
    }
}

impl TagTree {
    /// The paths alone, without counting anything.
    pub fn of(paths: &[String]) -> (tree: TagTree)
        ensures
            increasing(self::paths(tree@)),
            forall|p: Seq<char>| #[trigger]
                self::paths(tree@).contains(p) <==> carries(views(paths@), p),
            forall|i: int| 0 <= i < tree@.len() ==> (#[trigger] tree@[i]).1 == 0,
            tree.photos() == Seq::<Seq<Seq<char>>>::empty(),
    {
        let list = all_levels(paths);
        let mut counts: Vec<i64> = Vec::new();
        for i in 0..list.len()
            invariant
                counts@.len() == i,
                forall|j: int| 0 <= j < i ==> counts@[j] == 0,
        {
            counts.push(0);
        }
        let tree = TagTree { paths: list, counts, lists: Vec::new() };
        assert(self::paths(tree@) =~= views(tree.paths@));
        assert(tree.photos() =~= Seq::<Seq<Seq<char>>>::empty());
        tree
    }

    /// The tags of these photos, each counted once per photo however many tags below it the
    /// photo carries.
    pub fn counted(photos: &[Vec<String>]) -> (tree: TagTree)
        requires
            photos@.len() <= i64::MAX,
        ensures
            increasing(self::paths(tree@)),
            forall|p: Seq<char>| #[trigger]
                self::paths(tree@).contains(p) <==> carriers(tag_lists(photos@), p) > 0,
            forall|i: int|
                0 <= i < tree@.len() ==> (#[trigger] tree@[i]).1 == carriers(
                    tag_lists(photos@),
                    tree@[i].0,
                ),
            tree.photos() == tag_lists(photos@),
    {
        let mut nodes: Vec<String> = Vec::new();
        let mut counts: Vec<i64> = Vec::new();
        let ghost all = tag_lists(photos@);
        for n in 0..photos.len()
            invariant
                photos@.len() <= i64::MAX,
                all == tag_lists(photos@),
                nodes@.len() == counts@.len(),
                increasing(views(nodes@)),
                forall|p: Seq<char>| #[trigger]
                    views(nodes@).contains(p) <==> carriers(all.take(n as int), p) > 0,
                forall|i: int|
                    0 <= i < nodes@.len() ==> counts@[i] == carriers(
                        all.take(n as int),
                        #[trigger] views(nodes@)[i],
                    ),
        {
            let seen = all_levels(&photos[n]);
            let ghost before = all.take(n as int);
            let ghost after = all.take(n + 1);
            proof {
                assert(after.drop_last() =~= before);
                assert(after.last() == views(photos@[n as int]@));
                assert forall|p: Seq<char>| #[trigger] views(nodes@).contains(p) <==> carriers(
                    before,
                    p,
                ) > 0 || views(seen@).take(0).contains(p) by {}
            }
            for m in 0..seen.len()
                invariant
                    n < photos@.len() <= i64::MAX,
                    before == all.take(n as int),
                    all == tag_lists(photos@),
                    nodes@.len() == counts@.len(),
                    increasing(views(nodes@)),
                    increasing(views(seen@)),
                    forall|p: Seq<char>| #[trigger]
                        views(nodes@).contains(p) <==> carriers(before, p) > 0 || views(
                            seen@,
                        ).take(m as int).contains(p),
                    forall|i: int|
                        0 <= i < nodes@.len() ==> counts@[i] == carriers(
                            before,
                            #[trigger] views(nodes@)[i],
                        ) + (if views(seen@).take(m as int).contains(views(nodes@)[i]) {
                            1int
                        } else {
                            0int
                        }),
            {
                let level = &seen[m];
                let at: usize = place(&nodes, level);
                let ghost some = views(seen@).take(m as int);
                let ghost more = views(seen@).take(m + 1);
                let ghost old_nodes = views(nodes@);
                let ghost old_counts = counts@;
                proof {
                    assert(more =~= some.push(level@));
                    if some.contains(level@) {
                        let k = choose|k: int| 0 <= k < some.len() && some[k] == level@;
                        assert(precedes(views(seen@)[k], views(seen@)[m as int]));
                        precedes_is_irreflexive(level@);
                    }
                    assert forall|p: Seq<char>| #[trigger] more.contains(p) <==> some.contains(p)
                        || p == level@ by {
                        lemma_push_contains(some, level@, p);
                    }
                }
                if at < nodes.len() && same(&nodes[at], level) {
                    proof {
                        assert(old_nodes[at as int] == level@);
                        assert(old_nodes.contains(level@));
                        lemma_carriers_bound(before, level@);
                    }
                    let count = counts[at];
                    counts.set(at, count + 1);
                    proof {
                        assert forall|i: int| 0 <= i < nodes@.len() implies counts@[i] == carriers(
                            before,
                            #[trigger] views(nodes@)[i],
                        ) + (if more.contains(views(nodes@)[i]) {
                            1int
                        } else {
                            0int
                        }) by {
                            if i != at {
                                lemma_increasing_distinct(old_nodes, i, at as int);
                            }
                        }
                        assert forall|p: Seq<char>| #[trigger] views(nodes@).contains(p) <==>
                            carriers(before, p) > 0 || more.contains(p) by {}
                    }
                } else {
                    proof {
                        lemma_not_there(old_nodes, at as int, level@);
                    }
                    let ghost old_list = nodes@;
                    insert_at(&mut nodes, at, level.clone());
                    counts.insert(at, 1);
                    proof {
                        lemma_carriers_bound(before, level@);
                        let now = views(nodes@);
                        assert(now =~= old_nodes.insert(at as int, level@));
                        assert forall|p: Seq<char>| #[trigger] now.contains(p) <==> carriers(
                            before,
                            p,
                        ) > 0 || more.contains(p) by {
                            lemma_insert_contains(old_nodes, at as int, level@, p);
                        }
                        assert forall|i: int| 0 <= i < nodes@.len() implies counts@[i] == carriers(
                            before,
                            #[trigger] views(nodes@)[i],
                        ) + (if more.contains(views(nodes@)[i]) {
                            1int
                        } else {
                            0int
                        }) by {
                            if i < at {
                                assert(now[i] == old_nodes[i]);
                                assert(old_nodes.contains(now[i]));
                            } else if i > at {
                                assert(now[i] == old_nodes[i - 1]);
                                assert(old_nodes.contains(now[i]));
                            }
                        }
                    }
                }
            }
            proof {
                assert(views(seen@).take(seen@.len() as int) =~= views(seen@));
                assert forall|p: Seq<char>| #[trigger] views(nodes@).contains(p) <==> carriers(
                    after,
                    p,
                ) > 0 by {
                    lemma_carriers_bound(before, p);
                    assert(views(seen@).contains(p) <==> carries(views(photos@[n as int]@), p));
                }
                assert forall|i: int| 0 <= i < nodes@.len() implies counts@[i] == carriers(
                    after,
                    #[trigger] views(nodes@)[i],
                ) by {
                    assert(views(seen@).contains(views(nodes@)[i]) <==> carries(
                        views(photos@[n as int]@),
                        views(nodes@)[i],
                    ));
                }
            }
        }
        assert(all.take(photos@.len() as int) =~= all);
        let tree = TagTree { paths: nodes, counts, lists: copy_lists(photos) };
        proof {
            assert(self::paths(tree@) =~= views(tree.paths@));
            assert forall|i: int| 0 <= i < tree@.len() implies (#[trigger] tree@[i]).1 == carriers(
                all,
                tree@[i].0,
            ) by {
                assert(tree@[i].0 == views(tree.paths@)[i]);
            }
        }
        tree
    }

    /// The tags of the library, from every photo's tags in the order of the photos, each counted
    /// once per photo however many tags below it the photo carries.
    pub fn take(rows: &[(i64, String)]) -> (tree: TagTree)
        requires
            rows@.len() <= i64::MAX,
        ensures
            increasing(self::paths(tree@)),
            forall|p: Seq<char>| #[trigger]
                self::paths(tree@).contains(p) <==> carriers(by_photo(rows@), p) > 0,
            forall|i: int|
                0 <= i < tree@.len() ==> (#[trigger] tree@[i]).1 == carriers(
                    by_photo(rows@),
                    tree@[i].0,
                ),
            tree.photos() == by_photo(rows@),
    {
        let mut photos: Vec<Vec<String>> = Vec::new();
        let mut open: Vec<String> = Vec::new();
        assert(tag_lists(photos@) =~= by_photo(rows@.take(0)));
        for i in 0..rows.len()
            invariant
                photos@.len() <= i,
                i == 0 ==> photos@.len() == 0 && open@.len() == 0,
                i == 0 ==> tag_lists(photos@) == by_photo(rows@.take(i as int)),
                i > 0 ==> tag_lists(photos@).push(views(open@)) == by_photo(rows@.take(i as int)),
                i > 0 ==> photos@.len() < i,
        {
            let ghost upto = rows@.take(i + 1);
            let ghost before = tag_lists(photos@).push(views(open@));
            assert(upto.drop_last() =~= rows@.take(i as int));
            if i > 0 && rows[i - 1].0 != rows[i].0 {
                photos.push(open);
                open = Vec::new();
                assert(tag_lists(photos@) =~= before);
            }
            let ghost started = views(open@);
            open.push(rows[i].1.clone());
            assert(views(open@) =~= started.push(rows@[i as int].1@));
            proof {
                assert(upto.last() == rows@[i as int]);
                if i > 0 {
                    assert(upto[upto.len() - 2] == rows@[i - 1]);
                }
                if i > 0 && rows@[i - 1].0 == rows@[i as int].0 {
                    assert(before.drop_last() =~= tag_lists(photos@));
                } else {
                    assert(views(open@) =~= seq![rows@[i as int].1@]);
                }
            }
            assert(tag_lists(photos@).push(views(open@)) =~= by_photo(upto));
        }
        assert(rows@.take(rows@.len() as int) =~= rows@);
        if rows.len() > 0 {
            let ghost before = tag_lists(photos@).push(views(open@));
            photos.push(open);
            assert(tag_lists(photos@) =~= before);
        }
        TagTree::counted(&photos)
    }

    /// How many of the photos that were counted carry any of these branches or a tag below one.
    pub fn carrying(&self, branches: &[String]) -> (photos: i64)
        ensures
            photos == carriers_of_any(self.photos(), views(branches@)),
            photos >= 0,
    {
        proof {
            use_type_invariant(self);
        }
        let ghost all = self.photos();
        let mut photos: i64 = 0;
        for i in 0..self.lists.len()
            invariant
                all == tag_lists(self.lists@),
                self.lists@.len() <= i64::MAX,
                0 <= photos <= i,
                photos == carriers_of_any(all.take(i as int), views(branches@)),
        {
            assert(all.take(i + 1).drop_last() =~= all.take(i as int));
            assert(all.take(i + 1).last() == views(self.lists@[i as int]@));
            if any_within(&self.lists[i], branches) {
                photos += 1;
            }
        }
        assert(all.take(all.len() as int) =~= all);
        photos
    }
}

fn any_within(tags: &[String], branches: &[String]) -> (yes: bool)
    ensures
        yes == carries_any(views(tags@), views(branches@)),
{
    for i in 0..branches.len()
        invariant
            forall|j: int| 0 <= j < i ==> !carries(views(tags@), #[trigger] views(branches@)[j]),
    {
        let ghost branch = views(branches@)[i as int];
        for k in 0..tags.len()
            invariant
                i < branches@.len(),
                branch == views(branches@)[i as int],
                forall|l: int| 0 <= l < k ==> !lies_within(#[trigger] views(tags@)[l], branch),
        {
            if crate::tags::within(&tags[k], &branches[i]) {
                assert(lies_within(views(tags@)[k as int], branch));
                assert(carries(views(tags@), views(branches@)[i as int]));
                return true;
            }
        }
    }
    false
}

/// The tags of each photo, from rows of a photo's number and a tag, the rows of a photo one after
/// another.
pub open spec fn by_photo(rows: Seq<(i64, String)>) -> Seq<Seq<Seq<char>>>
    decreases rows.len(),
{
    if rows.len() == 0 {
        Seq::empty()
    } else {
        let before = by_photo(rows.drop_last());
        let tag = rows.last().1@;
        if rows.len() > 1 && rows[rows.len() - 2].0 == rows.last().0 {
            before.drop_last().push(before.last().push(tag))
        } else {
            before.push(seq![tag])
        }
    }
}

proof fn lemma_carriers_bound(photos: Seq<Seq<Seq<char>>>, branch: Seq<char>)
    ensures
        0 <= carriers(photos, branch) <= photos.len(),
    decreases photos.len(),
{
    if photos.len() > 0 {
        lemma_carriers_bound(photos.drop_last(), branch);
    }
}

proof fn lemma_increasing_distinct(list: Seq<Seq<char>>, i: int, j: int)
    requires
        increasing(list),
        0 <= i < list.len(),
        0 <= j < list.len(),
        i != j,
    ensures
        list[i] != list[j],
{
    precedes_is_irreflexive(list[i]);
    if i < j {
        assert(precedes(list[i], list[j]));
    } else {
        assert(precedes(list[j], list[i]));
    }
}

/// A text is not in a list in order where its place holds another.
proof fn lemma_not_there(list: Seq<Seq<char>>, at: int, x: Seq<char>)
    requires
        increasing(list),
        0 <= at <= list.len(),
        forall|i: int| 0 <= i < at ==> precedes(#[trigger] list[i], x),
        forall|i: int| at <= i < list.len() ==> !precedes(#[trigger] list[i], x),
        at < list.len() ==> list[at] != x,
    ensures
        !list.contains(x),
        forall|i: int| at <= i < list.len() ==> precedes(x, #[trigger] list[i]),
{
    precedes_is_irreflexive(x);
    assert forall|i: int| at <= i < list.len() implies precedes(x, #[trigger] list[i]) by {
        precedes_is_total(x, list[i]);
        if list[i] == x {
            assert(precedes(list[at], list[i]));
        }
    }
}

proof fn lemma_insert_contains(list: Seq<Seq<char>>, at: int, item: Seq<char>, x: Seq<char>)
    requires
        0 <= at <= list.len(),
    ensures
        list.insert(at, item).contains(x) <==> list.contains(x) || x == item,
{
    let more = list.insert(at, item);
    if more.contains(x) {
        let k = choose|k: int| 0 <= k < more.len() && more[k] == x;
        if k < at {
            assert(list[k] == x);
        } else if k > at {
            assert(list[k - 1] == x);
        }
    }
    if list.contains(x) {
        let k = choose|k: int| 0 <= k < list.len() && list[k] == x;
        if k < at {
            assert(more[k] == x);
        } else {
            assert(more[k + 1] == x);
        }
    }
    assert(more[at] == item);
}

/// Puts a text in its place in a list in order.
fn insert_at(list: &mut Vec<String>, at: usize, text: String)
    requires
        increasing(views(old(list)@)),
        at <= old(list)@.len(),
        forall|i: int| 0 <= i < at ==> precedes(#[trigger] views(old(list)@)[i], text@),
        forall|i: int|
            at <= i < old(list)@.len() ==> precedes(text@, #[trigger] views(old(list)@)[i]),
    ensures
        views(final(list)@) == views(old(list)@).insert(at as int, text@),
        increasing(views(final(list)@)),
        final(list)@.len() == old(list)@.len() + 1,
{
    let ghost before = views(list@);
    let ghost x = text@;
    list.insert(at, text);
    proof {
        let after = views(list@);
        assert(after =~= before.insert(at as int, x));
        assert forall|i: int, j: int| 0 <= i < j < after.len() implies precedes(
            #[trigger] after[i],
            #[trigger] after[j],
        ) by {
            if i < at && j > at {
                assert(precedes(before[i], before[j - 1]));
            } else if i > at && j > at {
                assert(precedes(before[i - 1], before[j - 1]));
            } else if i < at && j < at {
                assert(precedes(before[i], before[j]));
            } else if i == at {
                assert(precedes(x, before[j - 1]));
            } else {
                assert(after[i] == before[i]);
            }
        }
    }
}

// ---- Reading the tree --------------------------------------------------------------------------

/// A tag and everything below it.
#[derive(Debug, PartialEq, Eq)]
pub struct Tag {
    pub path: String,
    /// The last part of the path.
    pub name: String,
    /// Photos carrying this tag or one below it.
    pub photos: i64,
    pub children: Vec<Tag>,
}

/// Whether two lists hold the same, with all there is below.
pub open spec fn same_tags(one: Seq<Tag>, other: Seq<Tag>) -> bool
    decreases one,
{
    &&& one.len() == other.len()
    &&& forall|i: int|
        0 <= i < one.len() ==> {
            &&& (#[trigger] one[i]).path@ == other[i].path@
            &&& one[i].name@ == other[i].name@
            &&& one[i].photos == other[i].photos
            &&& same_tags(one[i].children@, other[i].children@)
        }
}

fn copy_tags(list: &[Tag]) -> (copied: Vec<Tag>)
    ensures
        same_tags(list@, copied@),
    decreases list@,
{
    let mut copied: Vec<Tag> = Vec::new();
    for i in 0..list.len()
        invariant
            same_tags(list@.take(i as int), copied@),
    {
        let ghost before = copied@;
        assert(decreases_to!(list@ => list@[i as int].children@));
        let one = Tag {
            path: list[i].path.clone(),
            name: list[i].name.clone(),
            photos: list[i].photos,
            children: copy_tags(&list[i].children),
        };
        copied.push(one);
        proof {
            let (now, upto) = (copied@, list@.take(i + 1));
            assert forall|j: int| 0 <= j < upto.len() implies {
                &&& (#[trigger] upto[j]).path@ == now[j].path@
                &&& upto[j].name@ == now[j].name@
                &&& upto[j].photos == now[j].photos
                &&& same_tags(upto[j].children@, now[j].children@)
            } by {
                if j < i {
                    assert(list@.take(i as int)[j] == upto[j]);
                    assert(before[j] == now[j]);
                }
            }
        }
    }
    assert(list@.take(list@.len() as int) =~= list@);
    copied
}

impl Clone for Tag {
    fn clone(&self) -> (copied: Tag)
        ensures
            copied.path@ == self.path@,
            copied.name@ == self.name@,
            copied.photos == self.photos,
            same_tags(self.children@, copied.children@),
    {
        Tag {
            path: self.path.clone(),
            name: self.name.clone(),
            photos: self.photos,
            children: copy_tags(&self.children),
        }
    }
}

/// The name of a node right below a parent, the roots being below the empty path.
pub open spec fn child_name(node: Seq<char>, parent: Seq<char>) -> Option<Seq<char>> {
    let rest = if parent.len() == 0 {
        Some(node)
    } else {
        after_start(node, parent.push('/'))
    };
    match rest {
        Some(rest) => if rest.len() > 0 && !rest.contains('/') {
            Some(rest)
        } else {
            None
        },
        None => None,
    }
}

/// The names of the nodes right below a parent, in order.
pub open spec fn children_of(nodes: Seq<(Seq<char>, int)>, parent: Seq<char>) -> Seq<Seq<char>>
    decreases nodes.len(),
{
    if nodes.len() == 0 {
        Seq::empty()
    } else {
        let before = children_of(nodes.drop_last(), parent);
        match child_name(nodes.last().0, parent) {
            Some(name) => before.push(name),
            None => before,
        }
    }
}

/// The path of a name below a parent.
pub open spec fn under(parent: Seq<char>, name: Seq<char>) -> Seq<char> {
    if parent.len() == 0 {
        name
    } else {
        parent.push('/') + name
    }
}

/// Whether tags are all there is below a parent: one for each child, in order, each with its
/// count and with all there is below it.
pub open spec fn lists(nodes: Seq<(Seq<char>, int)>, parent: Seq<char>, tags: Seq<Tag>) -> bool
    decreases tags,
{
    &&& tags.len() == children_of(nodes, parent).len()
    &&& forall|i: int|
        0 <= i < tags.len() ==> tells(
            nodes,
            parent,
            children_of(nodes, parent)[i],
            #[trigger] tags[i],
        )
}

/// Whether a tag is the node of this name below a parent.
pub open spec fn tells(
    nodes: Seq<(Seq<char>, int)>,
    parent: Seq<char>,
    name: Seq<char>,
    tag: Tag,
) -> bool
    decreases tag,
{
    &&& tag.name@ == name
    &&& tag.path@ == under(parent, name)
    &&& count_of(nodes, tag.path@) == Some(tag.photos as int)
    &&& lists(nodes, tag.path@, tag.children@)
}

/// The length of the longest path.
spec fn reach(nodes: Seq<(Seq<char>, int)>) -> nat
    decreases nodes.len(),
{
    if nodes.len() == 0 {
        0
    } else if reach(nodes.drop_last()) > nodes.last().0.len() {
        reach(nodes.drop_last())
    } else {
        nodes.last().0.len()
    }
}

proof fn lemma_reach(nodes: Seq<(Seq<char>, int)>, i: int)
    requires
        0 <= i < nodes.len(),
    ensures
        nodes[i].0.len() <= reach(nodes),
    decreases nodes.len(),
{
    if i < nodes.len() - 1 {
        lemma_reach(nodes.drop_last(), i);
    }
}

/// A child's path is a node of the tree.
proof fn lemma_child(nodes: Seq<(Seq<char>, int)>, parent: Seq<char>, k: int)
    requires
        0 <= k < children_of(nodes, parent).len(),
    ensures
        paths(nodes).contains(under(parent, children_of(nodes, parent)[k])),
        children_of(nodes, parent)[k].len() > 0,
    decreases nodes.len(),
{
    let front = nodes.drop_last();
    let before = children_of(front, parent);
    let name = children_of(nodes, parent)[k];
    if k < before.len() {
        lemma_child(front, parent, k);
        let i = choose|i: int|
            0 <= i < paths(front).len() && paths(front)[i] == under(parent, before[k]);
        assert(paths(nodes)[i] == under(parent, name));
    } else {
        let node = nodes.last().0;
        if parent.len() > 0 {
            assert(node =~= parent.push('/') + node.skip(parent.len() as int + 1)) by {
                assert(node.take(parent.len() as int + 1) =~= parent.push('/'));
            }
        }
        assert(under(parent, name) == node);
        assert(paths(nodes)[nodes.len() - 1] == node);
    }
}

pub proof fn lemma_count(nodes: Seq<(Seq<char>, int)>, i: int)
    requires
        increasing(paths(nodes)),
        0 <= i < nodes.len(),
    ensures
        count_of(nodes, nodes[i].0) == Some(nodes[i].1),
    decreases nodes.len(),
{
    let n = nodes.len() - 1;
    if i < n {
        lemma_increasing_distinct(paths(nodes), i, n);
        assert(paths(nodes)[i] == nodes[i].0);
        assert(paths(nodes)[n] == nodes[n].0);
        let front = nodes.drop_last();
        assert forall|a: int, b: int| 0 <= a < b < front.len() implies precedes(
            #[trigger] paths(front)[a],
            #[trigger] paths(front)[b],
        ) by {
            assert(precedes(paths(nodes)[a], paths(nodes)[b]));
        }
        lemma_count(front, i);
    }
}

proof fn lemma_no_count(nodes: Seq<(Seq<char>, int)>, path: Seq<char>)
    requires
        !paths(nodes).contains(path),
    ensures
        count_of(nodes, path) is None,
    decreases nodes.len(),
{
    if nodes.len() > 0 {
        assert(paths(nodes)[nodes.len() - 1] == nodes.last().0);
        let front = nodes.drop_last();
        if paths(front).contains(path) {
            let i = choose|i: int| 0 <= i < paths(front).len() && paths(front)[i] == path;
            assert(paths(nodes)[i] == path);
        }
        lemma_no_count(front, path);
    }
}

pub open spec fn count_opt(n: Option<i64>) -> Option<int> {
    match n {
        Some(n) => Some(n as int),
        None => None,
    }
}

impl TagTree {
    pub fn count(&self, path: &str) -> (count: Option<i64>)
        ensures
            count_opt(count) == count_of(self@, path@),
    {
        proof {
            use_type_invariant(self);
            assert(paths(self@) =~= views(self.paths@));
        }
        let at: usize = place(&self.paths, path);
        if at < self.paths.len() && same(&self.paths[at], path) {
            proof {
                lemma_count(self@, at as int);
            }
            Some(self.counts[at])
        } else {
            proof {
                assert forall|i: int| 0 <= i < at implies precedes(
                    #[trigger] views(self.paths@)[i],
                    path@,
                ) by {
                    assert(precedes(self.paths@[i]@, path@));
                }
                assert forall|i: int| at <= i < self.paths@.len() implies !precedes(
                    #[trigger] views(self.paths@)[i],
                    path@,
                ) by {
                    assert(!precedes(self.paths@[i]@, path@));
                }
                lemma_not_there(views(self.paths@), at as int, path@);
                lemma_no_count(self@, path@);
            }
            None
        }
    }

    /// The names of the tags right below a path, in order; those of the roots below none.
    pub fn children(&self, parent: &str) -> (names: Vec<String>)
        ensures
            views(names@) == children_of(self@, parent@),
    {
        let mut names: Vec<String> = Vec::new();
        let root = empty(parent);
        let mut start = copy(parent);
        start.push('/');
        for i in 0..self.paths.len()
            invariant
                root == (parent@.len() == 0),
                start@ == parent@.push('/'),
                views(names@) == children_of(self@.take(i as int), parent@),
        {
            let ghost before = views(names@);
            assert(self@.take(i + 1).drop_last() =~= self@.take(i as int));
            assert(self@.take(i + 1).last().0 == self.paths@[i as int]@);
            let rest = if root {
                Some(self.paths[i].clone())
            } else {
                strip_start(&self.paths[i], &start)
            };
            if let Some(name) = rest {
                if !empty(&name) && !holds_char(&name, '/') {
                    names.push(name);
                    assert(views(names@) =~= before.push(name@));
                }
            }
        }
        assert(self@.take(self@.len() as int) =~= self@);
        names
    }

    /// The tags as a tree, the roots first, each level in the order of its spelling.
    pub fn tree(&self) -> (tags: Vec<Tag>)
        ensures
            lists(self@, Seq::empty(), tags@),
    {
        let root = String::new();
        self.below(&root)
    }

    fn below(&self, parent: &str) -> (tags: Vec<Tag>)
        ensures
            lists(self@, parent@, tags@),
        decreases reach(self@) - parent@.len(),
    {
        let names = self.children(parent);
        let root = empty(parent);
        let mut tags: Vec<Tag> = Vec::new();
        let ghost all = children_of(self@, parent@);
        for i in 0..names.len()
            invariant
                root == (parent@.len() == 0),
                all == children_of(self@, parent@),
                views(names@) == all,
                tags@.len() == i,
                forall|j: int| 0 <= j < i ==> tells(self@, parent@, all[j], #[trigger] tags@[j]),
        {
            let name = &names[i];
            let path = if root {
                name.clone()
            } else {
                copy(parent).concat("/").concat(name)
            };
            proof {
                reveal_strlit("/");
                assert("/"@ =~= seq!['/']);
                assert(parent@ + "/"@ =~= parent@.push('/'));
                assert(views(names@)[i as int] == name@);
                assert(path@ == under(parent@, all[i as int]));
                lemma_child(self@, parent@, i as int);
                let k = choose|k: int| 0 <= k < paths(self@).len() && paths(self@)[k] == path@;
                lemma_reach(self@, k);
                use_type_invariant(self);
                assert(paths(self@) =~= views(self.paths@));
                lemma_count(self@, k);
            }
            let photos = match self.count(&path) {
                Some(photos) => photos,
                None => 0,
            };
            let children = self.below(&path);
            tags.push(Tag { name: name.clone(), photos, children, path });
        }
        tags
    }
}

// ---- Twins and look-alikes ---------------------------------------------------------------------

/// The lowercase forms of a tree's paths.
pub open spec fn lower_forms(nodes: Seq<(Seq<char>, int)>) -> Set<Seq<char>> {
    Set::new(|l: Seq<char>| exists|i: int| 0 <= i < nodes.len() && lowercased(#[trigger] nodes[i].0) == l)
}

/// The paths with this lowercase form, in order.
pub open spec fn spellings(nodes: Seq<(Seq<char>, int)>, lower: Seq<char>) -> Seq<Seq<char>>
    decreases nodes.len(),
{
    if nodes.len() == 0 {
        Seq::empty()
    } else {
        let before = spellings(nodes.drop_last(), lower);
        if lowercased(nodes.last().0) == lower {
            before.push(nodes.last().0)
        } else {
            before
        }
    }
}

/// Whether a lowercase form is a finding: there is more than one spelling of it, and not of the
/// level above it.
pub open spec fn is_twin(nodes: Seq<(Seq<char>, int)>, lower: Seq<char>) -> bool {
    &&& spellings(nodes, lower).len() > 1
    &&& match cut_last(lower, '/') {
        Some((parent, _)) => spellings(nodes, parent).len() <= 1,
        None => true,
    }
}

/// The spellings of the findings among these lowercase forms.
pub open spec fn twins_among(nodes: Seq<(Seq<char>, int)>, lowers: Seq<Seq<char>>) -> Seq<
    Seq<Seq<char>>,
>
    decreases lowers.len(),
{
    if lowers.len() == 0 {
        Seq::empty()
    } else {
        let before = twins_among(nodes, lowers.drop_last());
        if is_twin(nodes, lowers.last()) {
            before.push(spellings(nodes, lowers.last()))
        } else {
            before
        }
    }
}

/// The spellings that differ in case alone, highest level only, in the order of their lowercase
/// forms.
pub open spec fn twins_of(nodes: Seq<(Seq<char>, int)>) -> Seq<Seq<Seq<char>>> {
    twins_among(nodes, in_order(lower_forms(nodes)))
}

/// The parent and the last part of a path, the parent of a root being empty.
pub open spec fn parent_and_leaf(path: Seq<char>) -> (Seq<char>, Seq<char>) {
    match cut_last(path, '/') {
        Some((parent, leaf)) => (parent, leaf),
        None => (Seq::empty(), path),
    }
}

pub open spec fn parents(nodes: Seq<(Seq<char>, int)>) -> Set<Seq<char>> {
    Set::new(
        |p: Seq<char>|
            exists|i: int|
                0 <= i < nodes.len() && parent_and_leaf(#[trigger] nodes[i].0).0 == p,
    )
}

/// The last parts of the paths with this parent, in order.
pub open spec fn leaves(nodes: Seq<(Seq<char>, int)>, parent: Seq<char>) -> Seq<Seq<char>>
    decreases nodes.len(),
{
    if nodes.len() == 0 {
        Seq::empty()
    } else {
        let before = leaves(nodes.drop_last(), parent);
        if parent_and_leaf(nodes.last().0).0 == parent {
            before.push(parent_and_leaf(nodes.last().0).1)
        } else {
            before
        }
    }
}

/// The paths of one leaf and those after it, up to a place, that look like it.
pub open spec fn alikes_of(parent: Seq<char>, names: Seq<Seq<char>>, one: int, upto: int) -> Seq<
    (Seq<char>, Seq<char>),
>
    decreases upto - one,
{
    if upto <= one + 1 {
        Seq::empty()
    } else {
        let before = alikes_of(parent, names, one, upto - 1);
        if alike_names(names[one], names[upto - 1]) {
            before.push((under(parent, names[one]), under(parent, names[upto - 1])))
        } else {
            before
        }
    }
}

/// The pairs of leaves that look alike, the first of each pair before a place.
pub open spec fn alikes_before(parent: Seq<char>, names: Seq<Seq<char>>, upto: int) -> Seq<
    (Seq<char>, Seq<char>),
>
    decreases upto,
{
    if upto <= 0 {
        Seq::empty()
    } else {
        alikes_before(parent, names, upto - 1) + alikes_of(
            parent,
            names,
            upto - 1,
            names.len() as int,
        )
    }
}

/// The siblings that look alike below these parents.
pub open spec fn alikes_below(nodes: Seq<(Seq<char>, int)>, above: Seq<Seq<char>>) -> Seq<
    (Seq<char>, Seq<char>),
>
    decreases above.len(),
{
    if above.len() == 0 {
        Seq::empty()
    } else {
        let names = leaves(nodes, above.last());
        alikes_below(nodes, above.drop_last()) + alikes_before(
            above.last(),
            names,
            names.len() as int,
        )
    }
}

/// The siblings that look alike, in the order of their parents.
pub open spec fn look_alikes_of(nodes: Seq<(Seq<char>, int)>) -> Seq<(Seq<char>, Seq<char>)> {
    alikes_below(nodes, in_order(parents(nodes)))
}

pub open spec fn has_digit(s: Seq<char>) -> bool {
    exists|i: int| 0 <= i < s.len() && is_digit(#[trigger] s[i])
}

/// A text without its digits.
pub open spec fn letters(s: Seq<char>) -> Seq<char>
    decreases s.len(),
{
    if s.len() == 0 {
        Seq::empty()
    } else if is_digit(s.last()) {
        letters(s.drop_last())
    } else {
        letters(s.drop_last()).push(s.last())
    }
}

pub open spec fn least(a: nat, b: nat) -> nat {
    if a < b {
        a
    } else {
        b
    }
}

/// How many characters have to be put in, taken out or replaced to make one text the other.
pub open spec fn edits(a: Seq<char>, b: Seq<char>) -> nat
    decreases a.len() + b.len(),
{
    if a.len() == 0 {
        b.len()
    } else if b.len() == 0 {
        a.len()
    } else {
        let replaced = edits(a.drop_last(), b.drop_last()) + if a.last() == b.last() {
            0nat
        } else {
            1nat
        };
        least(
            least(replaced, edits(a.drop_last(), b) + 1),
            edits(a, b.drop_last()) + 1,
        )
    }
}

/// Long enough to be a word, a letter apart (two in a long one), and not two years of the same
/// thing (`2006 Summer`, `2007 Summer`).
pub open spec fn alike_names(one: Seq<char>, other: Seq<char>) -> bool {
    let a = lowercased(one);
    let b = lowercased(other);
    let shorter = least(a.len(), b.len());
    &&& a != b
    &&& shorter >= 5
    &&& !(has_digit(a) && letters(a) == letters(b))
    &&& edits(a, b) <= if shorter < 8 {
        1nat
    } else {
        2nat
    }
}

/// It takes no edits to make a text itself, and some to make it any other; it takes as many there
/// as back; and never more than the longer of the two has characters.
pub proof fn edits_are_a_distance(a: Seq<char>, b: Seq<char>)
    ensures
        edits(a, b) == 0 <==> a == b,
        edits(a, b) == edits(b, a),
        edits(a, b) <= a.len() || edits(a, b) <= b.len(),
    decreases a.len() + b.len(),
{
    if a.len() > 0 && b.len() > 0 {
        edits_are_a_distance(a.drop_last(), b.drop_last());
        edits_are_a_distance(a.drop_last(), b);
        edits_are_a_distance(a, b.drop_last());
        if a.last() == b.last() && a.drop_last() == b.drop_last() {
            assert(a =~= a.drop_last().push(a.last()));
            assert(b =~= b.drop_last().push(b.last()));
        }
    } else {
        assert(a.len() == b.len() ==> a =~= b);
    }
}

/// How many characters have to be put in, taken out or replaced to make one text the other.
pub fn distance(one: &str, other: &str) -> (n: usize)
    ensures
        n == edits(one@, other@),
{
    let a = chars(one);
    let b = chars(other);
    let mut previous: Vec<u128> = Vec::new();
    for j in 0..b.len()
        invariant
            previous@.len() == j,
            forall|k: int| 0 <= k < j ==> previous@[k] == edits(a@.take(0), b@.take(k)),
    {
        previous.push(j as u128);
    }
    previous.push(b.len() as u128);
    for i in 0..a.len()
        invariant
            previous@.len() == b@.len() + 1,
            forall|j: int| 0 <= j <= b@.len() ==> previous@[j] == edits(a@.take(i as int), b@.take(j)),
    {
        let mut current: Vec<u128> = Vec::new();
        current.push(i as u128 + 1);
        assert(edits(a@.take(i + 1), b@.take(0)) == i + 1);
        for j in 0..b.len()
            invariant
                i < a@.len(),
                previous@.len() == b@.len() + 1,
                forall|k: int|
                    0 <= k <= b@.len() ==> previous@[k] == edits(a@.take(i as int), b@.take(k)),
                current@.len() == j + 1,
                forall|k: int| 0 <= k <= j ==> current@[k] == edits(a@.take(i + 1), b@.take(k)),
        {
            proof {
                edits_are_a_distance(a@.take(i as int), b@.take(j as int));
                edits_are_a_distance(a@.take(i as int), b@.take(j + 1));
                edits_are_a_distance(a@.take(i + 1), b@.take(j as int));
                assert(a@.take(i + 1).drop_last() =~= a@.take(i as int));
                assert(b@.take(j + 1).drop_last() =~= b@.take(j as int));
                assert(previous@[j + 1] == edits(a@.take(i as int), b@.take(j + 1)));
            }
            let mut best: u128 = if a[i] == b[j] {
                previous[j]
            } else {
                previous[j] + 1
            };
            if previous[j + 1] + 1 <= best {
                best = previous[j + 1] + 1;
            }
            if current[j] + 1 <= best {
                best = current[j] + 1;
            }
            current.push(best);
        }
        previous = current;
    }
    proof {
        assert(a@.take(a@.len() as int) =~= a@);
        assert(b@.take(b@.len() as int) =~= b@);
        edits_are_a_distance(a@, b@);
    }
    previous[b.len()] as usize
}

fn digit_in(list: &[char]) -> (yes: bool)
    ensures
        yes == has_digit(list@),
{
    for i in 0..list.len()
        invariant
            forall|j: int| 0 <= j < i ==> !is_digit(#[trigger] list@[j]),
    {
        let c: u32 = list[i] as u32;
        if c >= 48 && c <= 57 {
            assert(is_digit(list@[i as int]));
            return true;
        }
    }
    false
}

fn letters_of(list: &[char]) -> (kept: String)
    ensures
        kept@ == letters(list@),
{
    let mut kept = String::new();
    for i in 0..list.len()
        invariant
            kept@ == letters(list@.take(i as int)),
    {
        assert(list@.take(i + 1).drop_last() =~= list@.take(i as int));
        let c: u32 = list[i] as u32;
        if c < 48 || c > 57 {
            kept.push(list[i]);
        }
    }
    assert(list@.take(list@.len() as int) =~= list@);
    kept
}

fn alike(one: &str, other: &str) -> (yes: bool)
    ensures
        yes == alike_names(one@, other@),
{
    let one = lowercase(one);
    let other = lowercase(other);
    let a = chars(&one);
    let b = chars(&other);
    let shorter: usize = if a.len() < b.len() {
        a.len()
    } else {
        b.len()
    };
    if same(&one, &other) || shorter < 5 {
        return false;
    }
    if digit_in(&a) && same(&letters_of(&a), &letters_of(&b)) {
        return false;
    }
    let allowed: usize = if shorter < 8 {
        1
    } else {
        2
    };
    distance(&one, &other) <= allowed
}

/// What a list of pairs holds.
pub open spec fn pair_views(pairs: Seq<(String, String)>) -> Seq<(Seq<char>, Seq<char>)> {
    Seq::new(pairs.len(), |i: int| (pairs[i].0@, pairs[i].1@))
}

impl TagTree {
    /// Paths that are the same but for case, highest level only: `People` and `people` are one
    /// finding, not one more for every tag below them.
    pub fn case_twins(&self) -> (twins: Vec<Vec<String>>)
        ensures
            tag_lists(twins@) == twins_of(self@),
    {
        let mut forms: Vec<String> = Vec::new();
        for i in 0..self.paths.len()
            invariant
                forms@.len() == i,
                forall|j: int| 0 <= j < i ==> (#[trigger] forms@[j])@ == lowercased(self@[j].0),
        {
            forms.push(lowercase(&self.paths[i]));
        }
        let lowers = sorted_set(&forms);
        proof {
            assert forall|l: Seq<char>| #[trigger] views(lowers@).contains(l) <==> lower_forms(
                self@,
            ).contains(l) by {
                if views(forms@).contains(l) {
                    let k = choose|k: int| 0 <= k < forms@.len() && views(forms@)[k] == l;
                    assert(forms@[k]@ == l);
                    assert(lowercased(self@[k].0) == l);
                }
                if lower_forms(self@).contains(l) {
                    let k = choose|k: int|
                        0 <= k < self@.len() && lowercased(#[trigger] self@[k].0) == l;
                    assert(forms@[k]@ == l);
                    assert(views(forms@)[k] == l);
                }
            }
            in_order_is(views(lowers@), lower_forms(self@));
        }
        let mut twins: Vec<Vec<String>> = Vec::new();
        assert(tag_lists(twins@) =~= Seq::empty());
        for n in 0..lowers.len()
            invariant
                forms@.len() == self.paths@.len(),
                forall|j: int|
                    0 <= j < forms@.len() ==> (#[trigger] forms@[j])@ == lowercased(self@[j].0),
                views(lowers@) == in_order(lower_forms(self@)),
                tag_lists(twins@) == twins_among(self@, views(lowers@).take(n as int)),
        {
            let ghost before = tag_lists(twins@);
            assert(views(lowers@).take(n + 1).drop_last() =~= views(lowers@).take(n as int));
            assert(views(lowers@).take(n + 1).last() == lowers@[n as int]@);
            let spelled = self.spelled(&forms, &lowers[n]);
            let above_is_twin = match split_last(&lowers[n], '/') {
                Some((parent, _)) => self.spelled(&forms, &parent).len() > 1,
                None => false,
            };
            assert(views(spelled@).len() == spelled@.len());
            if spelled.len() > 1 && !above_is_twin {
                twins.push(spelled);
                assert(tag_lists(twins@) =~= before.push(views(spelled@)));
            }
        }
        assert(views(lowers@).take(lowers@.len() as int) =~= views(lowers@));
        twins
    }

    fn spelled(&self, forms: &[String], lower: &str) -> (list: Vec<String>)
        requires
            forms@.len() == self@.len(),
            forall|j: int| 0 <= j < forms@.len() ==> (#[trigger] forms@[j])@ == lowercased(self@[j].0),
        ensures
            views(list@) == spellings(self@, lower@),
            list@.len() == spellings(self@, lower@).len(),
    {
        let mut list: Vec<String> = Vec::new();
        for i in 0..self.paths.len()
            invariant
                forms@.len() == self.paths@.len(),
                forall|j: int|
                    0 <= j < forms@.len() ==> (#[trigger] forms@[j])@ == lowercased(self@[j].0),
                views(list@) == spellings(self@.take(i as int), lower@),
        {
            let ghost before = views(list@);
            assert(self@.take(i + 1).drop_last() =~= self@.take(i as int));
            assert(self@.take(i + 1).last() == self@[i as int]);
            if same(&forms[i], lower) {
                list.push(self.paths[i].clone());
                assert(views(list@) =~= before.push(self@[i as int].0));
            }
        }
        assert(self@.take(self@.len() as int) =~= self@);
        assert(views(list@).len() == list@.len());
        list
    }

    /// Sibling tags a letter or two apart: a hint that one is a typo of the other, never a verdict.
    pub fn look_alikes(&self) -> (found: Vec<(String, String)>)
        ensures
            pair_views(found@) == look_alikes_of(self@),
    {
        let mut above_each: Vec<String> = Vec::new();
        let mut leaf_each: Vec<String> = Vec::new();
        for i in 0..self.paths.len()
            invariant
                above_each@.len() == i,
                leaf_each@.len() == i,
                forall|j: int|
                    0 <= j < i ==> ((#[trigger] above_each@[j])@, leaf_each@[j]@)
                        == parent_and_leaf(self@[j].0),
        {
            match split_last(&self.paths[i], '/') {
                Some((parent, leaf)) => {
                    above_each.push(parent);
                    leaf_each.push(leaf);
                },
                None => {
                    above_each.push(String::new());
                    leaf_each.push(self.paths[i].clone());
                },
            }
        }
        let above = sorted_set(&above_each);
        proof {
            assert forall|p: Seq<char>| #[trigger] views(above@).contains(p) <==> parents(
                self@,
            ).contains(p) by {
                if views(above_each@).contains(p) {
                    let k = choose|k: int| 0 <= k < above_each@.len() && views(above_each@)[k] == p;
                    assert(above_each@[k]@ == p);
                    assert(parent_and_leaf(self@[k].0).0 == p);
                }
                if parents(self@).contains(p) {
                    let k = choose|k: int|
                        0 <= k < self@.len() && parent_and_leaf(#[trigger] self@[k].0).0 == p;
                    assert(above_each@[k]@ == p);
                    assert(views(above_each@)[k] == p);
                }
            }
            in_order_is(views(above@), parents(self@));
        }
        let mut found: Vec<(String, String)> = Vec::new();
        assert(pair_views(found@) =~= Seq::empty());
        for n in 0..above.len()
            invariant
                above_each@.len() == self.paths@.len(),
                leaf_each@.len() == self.paths@.len(),
                forall|j: int|
                    0 <= j < above_each@.len() ==> ((#[trigger] above_each@[j])@, leaf_each@[j]@)
                        == parent_and_leaf(self@[j].0),
                views(above@) == in_order(parents(self@)),
                pair_views(found@) == alikes_below(self@, views(above@).take(n as int)),
        {
            let ghost before = pair_views(found@);
            assert(views(above@).take(n + 1).drop_last() =~= views(above@).take(n as int));
            assert(views(above@).take(n + 1).last() == above@[n as int]@);
            let mut names: Vec<String> = Vec::new();
            for i in 0..self.paths.len()
                invariant
                    n < above@.len(),
                    above_each@.len() == self.paths@.len(),
                    leaf_each@.len() == self.paths@.len(),
                    forall|j: int|
                        0 <= j < above_each@.len() ==> ((#[trigger] above_each@[j])@, leaf_each@[j]@)
                            == parent_and_leaf(self@[j].0),
                    views(names@) == leaves(self@.take(i as int), above@[n as int]@),
            {
                let ghost had = views(names@);
                assert(self@.take(i + 1).drop_last() =~= self@.take(i as int));
                assert(self@.take(i + 1).last() == self@[i as int]);
                assert((above_each@[i as int]@, leaf_each@[i as int]@) == parent_and_leaf(
                    self@[i as int].0,
                ));
                if same(&above_each[i], &above[n]) {
                    names.push(leaf_each[i].clone());
                    assert(views(names@) =~= had.push(leaf_each@[i as int]@));
                }
            }
            assert(self@.take(self@.len() as int) =~= self@);
            push_alikes(&above[n], &names, &mut found);
        }
        assert(views(above@).take(above@.len() as int) =~= views(above@));
        found
    }
}

fn push_alikes(parent: &str, names: &[String], found: &mut Vec<(String, String)>)
    ensures
        pair_views(final(found)@) == pair_views(old(found)@) + alikes_before(
            parent@,
            views(names@),
            names@.len() as int,
        ),
{
    let ghost start = pair_views(found@);
    assert(start + alikes_before(parent@, views(names@), 0) =~= start);
    for at in 0..names.len()
        invariant
            pair_views(found@) == start + alikes_before(parent@, views(names@), at as int),
    {
        let ghost before = pair_views(found@);
        assert(before + alikes_of(parent@, views(names@), at as int, at + 1) =~= before);
        for other in at + 1..names.len()
            invariant
                at < names@.len(),
                pair_views(found@) == before + alikes_of(
                    parent@,
                    views(names@),
                    at as int,
                    other as int,
                ),
        {
            let ghost had = pair_views(found@);
            if alike(&names[at], &names[other]) {
                let one = path_under(parent, &names[at]);
                let two = path_under(parent, &names[other]);
                found.push((one, two));
                assert(pair_views(found@) =~= had.push((one@, two@)));
                assert(pair_views(found@) =~= before + alikes_of(
                    parent@,
                    views(names@),
                    at as int,
                    other + 1,
                ));
            }
        }
        assert(pair_views(found@) =~= start + alikes_before(parent@, views(names@), at + 1));
    }
}

fn path_under(parent: &str, name: &str) -> (path: String)
    ensures
        path@ == under(parent@, name@),
{
    if empty(parent) {
        copy(name)
    } else {
        let mut path = copy(parent);
        path.push('/');
        path.append(name);
        path
    }
}

// ---- Places ------------------------------------------------------------------------------------

/// A country, or an event inside one.
#[derive(Debug, PartialEq, Eq)]
pub struct Place {
    pub name: String,
    /// The folder inside the library, which is what a filter is narrowed to.
    pub folder: String,
    pub photos: i64,
    pub events: Vec<Place>,
}

/// Whether two lists hold the same, with all there is below.
pub open spec fn same_places(one: Seq<Place>, other: Seq<Place>) -> bool
    decreases one,
{
    &&& one.len() == other.len()
    &&& forall|i: int|
        0 <= i < one.len() ==> {
            &&& (#[trigger] one[i]).name@ == other[i].name@
            &&& one[i].folder@ == other[i].folder@
            &&& one[i].photos == other[i].photos
            &&& same_places(one[i].events@, other[i].events@)
        }
}

fn copy_places(list: &[Place]) -> (copied: Vec<Place>)
    ensures
        same_places(list@, copied@),
    decreases list@,
{
    let mut copied: Vec<Place> = Vec::new();
    for i in 0..list.len()
        invariant
            same_places(list@.take(i as int), copied@),
    {
        let ghost before = copied@;
        assert(decreases_to!(list@ => list@[i as int].events@));
        let one = Place {
            name: list[i].name.clone(),
            folder: list[i].folder.clone(),
            photos: list[i].photos,
            events: copy_places(&list[i].events),
        };
        copied.push(one);
        proof {
            let (now, upto) = (copied@, list@.take(i + 1));
            assert forall|j: int| 0 <= j < upto.len() implies {
                &&& (#[trigger] upto[j]).name@ == now[j].name@
                &&& upto[j].folder@ == now[j].folder@
                &&& upto[j].photos == now[j].photos
                &&& same_places(upto[j].events@, now[j].events@)
            } by {
                if j < i {
                    assert(list@.take(i as int)[j] == upto[j]);
                    assert(before[j] == now[j]);
                }
            }
        }
    }
    assert(list@.take(list@.len() as int) =~= list@);
    copied
}

impl Clone for Place {
    fn clone(&self) -> (copied: Place)
        ensures
            copied.name@ == self.name@,
            copied.folder@ == self.folder@,
            copied.photos == self.photos,
            same_places(self.events@, copied.events@),
    {
        Place {
            name: self.name.clone(),
            folder: self.folder.clone(),
            photos: self.photos,
            events: copy_places(&self.events),
        }
    }
}

/// A country with its events, each as its name, its folder and its count.
#[verifier::ext_equal]
pub struct CountryView {
    pub name: Seq<char>,
    pub folder: Seq<char>,
    pub photos: int,
    pub events: Seq<(Seq<char>, Seq<char>, int)>,
}

pub open spec fn event_views(events: Seq<Place>) -> Seq<(Seq<char>, Seq<char>, int)> {
    Seq::new(
        events.len(),
        |i: int| (events[i].name@, events[i].folder@, events[i].photos as int),
    )
}

pub open spec fn country_view(place: Place) -> CountryView {
    CountryView {
        name: place.name@,
        folder: place.folder@,
        photos: place.photos as int,
        events: event_views(place.events@),
    }
}

pub open spec fn country_views(places: Seq<Place>) -> Seq<CountryView> {
    Seq::new(places.len(), |i: int| country_view(places[i]))
}

/// A country with one more row of it: so many photos, in an event or loose.
pub open spec fn with_row(country: CountryView, event: Option<Seq<char>>, photos: int) -> CountryView {
    CountryView {
        photos: country.photos + photos,
        events: match event {
            Some(folder) => {
                let name = match after_start(folder, country.folder.push('/')) {
                    Some(name) => name,
                    None => folder,
                };
                country.events.push((name, folder, photos))
            },
            None => country.events,
        },
        ..country
    }
}

/// The countries of rows in the order of the countries: a row is a country, an event's folder
/// where the photos are in one, and how many there are.
pub open spec fn countries_of(rows: Seq<(String, Option<String>, i64)>) -> Seq<CountryView>
    decreases rows.len(),
{
    if rows.len() == 0 {
        Seq::empty()
    } else {
        let before = countries_of(rows.drop_last());
        let (country, event, photos) = rows.last();
        let event = crate::text::view_opt(event);
        if before.len() > 0 && before.last().folder == country@ {
            before.drop_last().push(with_row(before.last(), event, photos as int))
        } else {
            before.push(
                with_row(
                    CountryView {
                        name: country@,
                        folder: country@,
                        photos: 0,
                        events: Seq::empty(),
                    },
                    event,
                    photos as int,
                ),
            )
        }
    }
}

/// How many photos there are in all of the rows.
pub open spec fn photos_in(rows: Seq<(String, Option<String>, i64)>) -> int
    decreases rows.len(),
{
    if rows.len() == 0 {
        0
    } else {
        photos_in(rows.drop_last()) + rows.last().2
    }
}

/// How many photos these countries hold.
pub open spec fn photos_of(countries: Seq<CountryView>) -> int
    decreases countries.len(),
{
    if countries.len() == 0 {
        0
    } else {
        photos_of(countries.drop_last()) + countries.last().photos
    }
}

/// The countries add up to the library.
pub proof fn countries_add_up(rows: Seq<(String, Option<String>, i64)>)
    ensures
        photos_of(countries_of(rows)) == photos_in(rows),
    decreases rows.len(),
{
    if rows.len() > 0 {
        countries_add_up(rows.drop_last());
        let before = countries_of(rows.drop_last());
        let now = countries_of(rows);
        if before.len() > 0 && before.last().folder == rows.last().0@ {
            assert(now.drop_last() =~= before.drop_last());
        } else {
            assert(now.drop_last() =~= before);
        }
    }
}

proof fn lemma_photos_grow(rows: Seq<(String, Option<String>, i64)>, n: int)
    requires
        0 <= n <= rows.len(),
        forall|i: int| 0 <= i < rows.len() ==> (#[trigger] rows[i]).2 >= 0,
    ensures
        0 <= photos_in(rows.take(n)) <= photos_in(rows),
    decreases rows.len(),
{
    if n < rows.len() {
        let front = rows.drop_last();
        assert forall|i: int| 0 <= i < front.len() implies (#[trigger] front[i]).2 >= 0 by {
            assert(front[i] == rows[i]);
        }
        lemma_photos_grow(front, n);
        assert(front.take(n) =~= rows.take(n));
    } else if n > 0 {
        assert(rows.take(n) =~= rows);
        let front = rows.drop_last();
        assert forall|i: int| 0 <= i < front.len() implies (#[trigger] front[i]).2 >= 0 by {
            assert(front[i] == rows[i]);
        }
        lemma_photos_grow(front, n - 1);
        assert(front.take(n - 1) =~= front);
    }
}

/// A country holds at least nothing, and no more than all of them do.
proof fn lemma_countries_bounded(rows: Seq<(String, Option<String>, i64)>, k: int)
    requires
        forall|i: int| 0 <= i < rows.len() ==> (#[trigger] rows[i]).2 >= 0,
        0 <= k < countries_of(rows).len(),
    ensures
        0 <= countries_of(rows)[k].photos <= photos_in(rows),
    decreases rows.len(),
{
    if rows.len() > 0 {
        let front = rows.drop_last();
        assert forall|i: int| 0 <= i < front.len() implies (#[trigger] front[i]).2 >= 0 by {
            assert(front[i] == rows[i]);
        }
        let before = countries_of(front);
        lemma_photos_grow(front, 0);
        assert(rows[rows.len() - 1].2 >= 0);
        if k < before.len() {
            lemma_countries_bounded(front, k);
        }
    }
}

/// The countries in name order, each with its events. A country's count includes its loose
/// photos, which belong to no event.
pub fn places(rows: &[(String, Option<String>, i64)]) -> (countries: Vec<Place>)
    requires
        forall|i: int| 0 <= i < rows@.len() ==> (#[trigger] rows@[i]).2 >= 0,
        photos_in(rows@) <= i64::MAX,
    ensures
        country_views(countries@) == countries_of(rows@),
        forall|i: int, j: int|
            0 <= i < countries@.len() && 0 <= j < countries@[i].events@.len() ==> (
            #[trigger] countries@[i].events@[j]).events@.len() == 0,
{
    let mut countries: Vec<Place> = Vec::new();
    assert(country_views(countries@) =~= countries_of(rows@.take(0)));
    for n in 0..rows.len()
        invariant
            forall|i: int| 0 <= i < rows@.len() ==> (#[trigger] rows@[i]).2 >= 0,
            photos_in(rows@) <= i64::MAX,
            country_views(countries@) == countries_of(rows@.take(n as int)),
            forall|i: int, j: int|
                0 <= i < countries@.len() && 0 <= j < countries@[i].events@.len() ==> (
                #[trigger] countries@[i].events@[j]).events@.len() == 0,
    {
        let ghost before = country_views(countries@);
        let ghost upto = rows@.take(n + 1);
        let ghost row = rows@[n as int];
        proof {
            assert(upto.drop_last() =~= rows@.take(n as int));
            assert(upto.last() == row);
            lemma_photos_grow(rows@, n + 1);
            lemma_photos_grow(rows@, n as int);
            if before.len() > 0 {
                let taken = rows@.take(n as int);
                assert forall|i: int| 0 <= i < taken.len() implies (#[trigger] taken[i]).2 >= 0 by {
                    assert(taken[i] == rows@[i]);
                }
                lemma_countries_bounded(taken, before.len() - 1);
            }
        }
        let country = &rows[n].0;
        let photos = rows[n].2;
        let last = countries.pop();
        let mut place = match last {
            Some(last) => {
                assert(before.last() == country_view(last));
                assert(country_views(countries@) =~= before.drop_last());
                if same(&last.folder, country) {
                    last
                } else {
                    countries.push(last);
                    assert(country_views(countries@) =~= before);
                    Place {
                        name: country.clone(),
                        folder: country.clone(),
                        photos: 0,
                        events: Vec::new(),
                    }
                }
            },
            None => Place {
                name: country.clone(),
                folder: country.clone(),
                photos: 0,
                events: Vec::new(),
            },
        };
        let ghost start = country_view(place);
        place.photos = place.photos + photos;
        if let Some(folder) = &rows[n].1 {
            let mut above = country.clone();
            above.push('/');
            let name = match strip_start(folder, &above) {
                Some(name) => name,
                None => folder.clone(),
            };
            let ghost had = event_views(place.events@);
            place.events.push(Place { name, folder: folder.clone(), photos, events: Vec::new() });
            assert(event_views(place.events@) =~= had.push((name@, folder@, photos as int)));
        }
        proof {
            if before.len() > 0 && before.last().folder == country@ {
                assert(country_views(countries@) =~= before.drop_last());
                assert(start == before.last());
            } else {
                assert(country_views(countries@) =~= before);
                assert(start =~= (CountryView {
                    name: country@,
                    folder: country@,
                    photos: 0,
                    events: Seq::empty(),
                }));
            }
            assert(country_view(place) =~= with_row(
                start,
                crate::text::view_opt(row.1),
                photos as int,
            ));
        }
        let ghost rest = country_views(countries@);
        countries.push(place);
        assert(country_views(countries@) =~= rest.push(country_view(place)));
        assert(country_views(countries@) =~= countries_of(upto));
    }
    assert(rows@.take(rows@.len() as int) =~= rows@);
    countries
}

// ---- What holds of branches and lists ----------------------------------------------------------

/// A path lies within a branch exactly where it is the branch, or the branch and a slash stand at
/// its start.
pub proof fn a_branch_holds_itself_and_what_is_below_it(
    path: Seq<char>,
    branch: Seq<char>,
    rest: Seq<char>,
)
    ensures
        lies_within(branch, branch),
        lies_within(branch + seq!['/'] + rest, branch),
        lies_within(path, branch) <==> path == branch || (path.len() > branch.len() && path.take(
            branch.len() as int,
        ) == branch && path[branch.len() as int] == '/'),
{
    assert(branch.take(branch.len() as int) =~= branch);
    let below = branch + seq!['/'] + rest;
    assert(below.take(branch.len() as int) =~= branch);
    if lies_within(path, branch) && path.len() == branch.len() {
        assert(path.take(branch.len() as int) =~= path);
    }
}

/// The photos counted for a branch are those with a tag that is the branch or below it; a photo
/// with several counts once.
pub proof fn a_photo_is_counted_once_for_a_branch(
    photos: Seq<Seq<Seq<char>>>,
    branch: Seq<char>,
    branches: Seq<Seq<char>>,
)
    ensures
        carriers(photos, branch) == photos.filter(
            |tags: Seq<Seq<char>>|
                exists|i: int| 0 <= i < tags.len() && lies_within(#[trigger] tags[i], branch),
        ).len(),
        carriers_of_any(photos, branches) == photos.filter(
            |tags: Seq<Seq<char>>|
                exists|i: int, k: int|
                    0 <= i < tags.len() && 0 <= k < branches.len() && #[trigger] lies_within(
                        tags[i],
                        branches[k],
                    ),
        ).len(),
    decreases photos.len(),
{
    reveal(Seq::filter);
    if photos.len() > 0 {
        a_photo_is_counted_once_for_a_branch(photos.drop_last(), branch, branches);
        let tags = photos.last();
        if carries_any(tags, branches) {
            let k = choose|k: int| 0 <= k < branches.len() && carries(tags, #[trigger] branches[k]);
            let i = choose|i: int| 0 <= i < tags.len() && lies_within(#[trigger] tags[i], branches[k]);
            assert(lies_within(tags[i], branches[k]));
        }
        if exists|i: int, k: int|
            0 <= i < tags.len() && 0 <= k < branches.len() && #[trigger] lies_within(
                tags[i],
                branches[k],
            ) {
            let (i, k) = choose|i: int, k: int|
                0 <= i < tags.len() && 0 <= k < branches.len() && #[trigger] lies_within(
                    tags[i],
                    branches[k],
                );
            assert(carries(tags, branches[k]));
        }
    }
}

/// The tags of the photos, photo after photo, are the tags of the rows, and no photo is without
/// one. A row of the same photo as the row before it adds to that photo, any other begins one.
pub proof fn every_row_is_a_tag_of_its_photo(rows: Seq<(i64, String)>)
    ensures
        by_photo(rows).fold_left(
            Seq::empty(),
            |all: Seq<Seq<char>>, tags: Seq<Seq<char>>| all + tags,
        ) == rows.map_values(|row: (i64, String)| row.1@),
        forall|i: int| 0 <= i < by_photo(rows).len() ==> (#[trigger] by_photo(rows)[i]).len() > 0,
        rows.len() > 0 ==> by_photo(rows).len() > 0,
        rows.len() > 1 ==> by_photo(rows).len() == by_photo(rows.drop_last()).len() + if rows[rows.len()
            - 2].0 == rows.last().0 {
            0int
        } else {
            1int
        },
    decreases rows.len(),
{
    let add = |all: Seq<Seq<char>>, tags: Seq<Seq<char>>| all + tags;
    let tag = |row: (i64, String)| row.1@;
    let lists = by_photo(rows);
    let none = Seq::<Seq<char>>::empty();
    if rows.len() == 0 {
        assert(rows.map_values(tag) =~= none);
    } else {
        let front = rows.drop_last();
        every_row_is_a_tag_of_its_photo(front);
        let before = by_photo(front);
        let last = rows.last().1@;
        assert(rows.map_values(tag) =~= front.map_values(tag).push(last));
        if rows.len() > 1 && rows[rows.len() - 2].0 == rows.last().0 {
            assert(lists.drop_last() =~= before.drop_last());
            assert(lists.last() == before.last().push(last));
            let upto = before.drop_last().fold_left(none, add);
            assert(before.fold_left(none, add) == upto + before.last());
            assert(lists.fold_left(none, add) == upto + before.last().push(last));
            assert(upto + before.last().push(last) =~= (upto + before.last()).push(last));
            assert forall|i: int| 0 <= i < lists.len() implies (#[trigger] lists[i]).len() > 0 by {
                if i < lists.len() - 1 {
                    assert(lists[i] == before[i]);
                }
            }
        } else {
            assert(lists.drop_last() =~= before);
            assert(lists.fold_left(none, add) == before.fold_left(none, add) + seq![last]);
            assert(before.fold_left(none, add) + seq![last] =~= before.fold_left(none, add).push(
                last,
            ));
            assert forall|i: int| 0 <= i < lists.len() implies (#[trigger] lists[i]).len() > 0 by {
                if i < before.len() {
                    assert(lists[i] == before[i]);
                }
            }
        }
    }
}

/// The children of a parent are the nodes one level below it: a node whose path is the parent, a
/// slash and a name without a slash is listed by that name, and nothing else is.
pub proof fn children_are_one_level_below(
    nodes: Seq<(Seq<char>, int)>,
    parent: Seq<char>,
    name: Seq<char>,
)
    ensures
        children_of(nodes, parent).contains(name) <==> name.len() > 0 && !name.contains('/')
            && exists|i: int|
            0 <= i < nodes.len() && (#[trigger] nodes[i]).0 == if parent.len() == 0 {
                name
            } else {
                parent + seq!['/'] + name
            },
    decreases nodes.len(),
{
    let path = if parent.len() == 0 {
        name
    } else {
        parent + seq!['/'] + name
    };
    if nodes.len() > 0 {
        let front = nodes.drop_last();
        let last = nodes.last().0;
        let before = children_of(front, parent);
        children_are_one_level_below(front, parent, name);
        assert forall|i: int| 0 <= i < front.len() implies #[trigger] front[i] == nodes[i] by {}
        assert(nodes[nodes.len() - 1].0 == last);
        let start = parent.push('/');
        assert(child_name(last, parent) == Some(name) <==> name.len() > 0 && !name.contains('/')
            && last == path) by {
            if parent.len() > 0 {
                if starts(last, start) {
                    assert(last =~= start + last.skip(start.len() as int));
                    if last.skip(start.len() as int) == name {
                        assert(start + name =~= path);
                    }
                }
                if last == path {
                    assert(last.take(start.len() as int) =~= start);
                    assert(last.skip(start.len() as int) =~= name);
                }
            }
        }
        match child_name(last, parent) {
            Some(child) => {
                lemma_push_contains(before, child, name);
            },
            None => {},
        }
        if exists|i: int| 0 <= i < nodes.len() && (#[trigger] nodes[i]).0 == path {
            let i = choose|i: int| 0 <= i < nodes.len() && (#[trigger] nodes[i]).0 == path;
            if i < front.len() {
                assert(front[i].0 == path);
            }
        }
        if exists|i: int| 0 <= i < front.len() && (#[trigger] front[i]).0 == path {
            let i = choose|i: int| 0 <= i < front.len() && (#[trigger] front[i]).0 == path;
            assert(nodes[i].0 == path);
        }
    }
}

/// The spellings of a lowercase form are the paths that have it, in the order of the tree.
pub proof fn spellings_are_the_paths_of_a_form(nodes: Seq<(Seq<char>, int)>, lower: Seq<char>)
    ensures
        spellings(nodes, lower) == nodes.filter(
            |node: (Seq<char>, int)| lowercased(node.0) == lower,
        ).map_values(|node: (Seq<char>, int)| node.0),
    decreases nodes.len(),
{
    reveal(Seq::filter);
    let kept = |node: (Seq<char>, int)| lowercased(node.0) == lower;
    let path = |node: (Seq<char>, int)| node.0;
    if nodes.len() == 0 {
        assert(nodes.filter(kept).map_values(path) =~= Seq::empty());
    } else {
        let front = nodes.drop_last();
        spellings_are_the_paths_of_a_form(front, lower);
        if kept(nodes.last()) {
            assert(nodes.filter(kept).map_values(path) =~= front.filter(kept).map_values(path).push(
                nodes.last().0,
            ));
        }
    }
}

/// A finding is spelled more than one way, the level above it is not, and its spellings are those
/// of the tree; every such form among those given is found.
pub proof fn twins_are_spelled_more_than_one_way(
    nodes: Seq<(Seq<char>, int)>,
    lowers: Seq<Seq<char>>,
)
    ensures
        twins_among(nodes, lowers) == lowers.filter(
            |lower: Seq<char>|
                spellings(nodes, lower).len() > 1 && (cut_last(lower, '/') matches Some(above)
                    ==> spellings(nodes, above.0).len() <= 1),
        ).map_values(|lower: Seq<char>| spellings(nodes, lower)),
    decreases lowers.len(),
{
    reveal(Seq::filter);
    let kept = |lower: Seq<char>|
        spellings(nodes, lower).len() > 1 && (cut_last(lower, '/') matches Some(above)
            ==> spellings(nodes, above.0).len() <= 1);
    let list = |lower: Seq<char>| spellings(nodes, lower);
    if lowers.len() == 0 {
        assert(lowers.filter(kept).map_values(list) =~= Seq::empty());
    } else {
        let front = lowers.drop_last();
        twins_are_spelled_more_than_one_way(nodes, front);
        assert(is_twin(nodes, lowers.last()) == kept(lowers.last()));
        if kept(lowers.last()) {
            assert(lowers.filter(kept).map_values(list) =~= front.filter(kept).map_values(list).push(
                list(lowers.last()),
            ));
        }
    }
}

/// The names of siblings are the last parts of the paths with that parent, in the order of the
/// tree; a text without its digits has every other character of it.
pub proof fn siblings_are_the_paths_of_a_parent(
    nodes: Seq<(Seq<char>, int)>,
    parent: Seq<char>,
    text: Seq<char>,
)
    ensures
        leaves(nodes, parent) == nodes.filter(
            |node: (Seq<char>, int)| parent_and_leaf(node.0).0 == parent,
        ).map_values(|node: (Seq<char>, int)| parent_and_leaf(node.0).1),
        letters(text) == text.filter(|c: char| !(48 <= c as u32 <= 57)),
    decreases nodes.len() + text.len(),
{
    reveal(Seq::filter);
    let kept = |node: (Seq<char>, int)| parent_and_leaf(node.0).0 == parent;
    let name = |node: (Seq<char>, int)| parent_and_leaf(node.0).1;
    if nodes.len() == 0 {
        assert(nodes.filter(kept).map_values(name) =~= Seq::empty());
    } else {
        let front = nodes.drop_last();
        siblings_are_the_paths_of_a_parent(front, parent, text);
        if kept(nodes.last()) {
            assert(nodes.filter(kept).map_values(name) =~= front.filter(kept).map_values(name).push(
                name(nodes.last()),
            ));
        }
    }
    if text.len() > 0 {
        siblings_are_the_paths_of_a_parent(nodes, parent, text.drop_last());
    }
}

/// One character more on either side is at most one edit more, and so is one character replaced;
/// the same character on both sides is none. No fewer edits make two texts the same than their
/// lengths differ by.
pub proof fn one_character_is_one_edit(a: Seq<char>, b: Seq<char>, c: char, d: char)
    ensures
        edits(a.push(c), b) <= edits(a, b) + 1,
        edits(a, b.push(d)) <= edits(a, b) + 1,
        edits(a.push(c), b.push(d)) <= edits(a, b) + 1,
        edits(a.push(c), b.push(c)) <= edits(a, b),
        edits(a, b) + b.len() >= a.len(),
        edits(a, b) + a.len() >= b.len(),
    decreases a.len() + b.len(),
{
    assert(a.push(c).drop_last() =~= a);
    assert(b.push(d).drop_last() =~= b);
    assert(b.push(c).drop_last() =~= b);
    if a.len() > 0 && b.len() > 0 {
        one_character_is_one_edit(a.drop_last(), b.drop_last(), c, d);
        one_character_is_one_edit(a.drop_last(), b, c, d);
        one_character_is_one_edit(a, b.drop_last(), c, d);
    }
}

/// Photos in an event are listed under its folder in their country, by the folder's name below the
/// country and with their number.
pub proof fn an_event_is_listed_in_its_country(rows: Seq<(String, Option<String>, i64)>, i: int)
    requires
        0 <= i < rows.len(),
    ensures
        exists|c: int|
            0 <= c < countries_of(rows).len() && (#[trigger] countries_of(rows)[c]).folder
                == rows[i].0@ && countries_of(rows)[c].name == rows[i].0@ && (rows[i].1 matches Some(
                folder,
            ) ==> has_event(countries_of(rows)[c], folder@, rows[i].2 as int)),
    decreases rows.len(),
{
    let front = rows.drop_last();
    let before = countries_of(front);
    let all = countries_of(rows);
    let last = rows.last();
    lemma_countries_named(front);
    lemma_countries_named(rows);
    if i < front.len() {
        an_event_is_listed_in_its_country(front, i);
        assert(front[i] == rows[i]);
        let c = choose|c: int|
            0 <= c < before.len() && (#[trigger] before[c]).folder == rows[i].0@ && before[c].name
                == rows[i].0@ && (rows[i].1 matches Some(folder) ==> has_event(
                before[c],
                folder@,
                rows[i].2 as int,
            ));
        assert(all[c].folder == rows[i].0@ && all[c].name == rows[i].0@);
        if rows[i].1 is Some {
            let folder = rows[i].1->0@;
            let k = choose|k: int|
                0 <= k < before[c].events.len() && is_event_row(
                    #[trigger] before[c].events[k],
                    before[c].folder,
                    folder,
                    rows[i].2 as int,
                );
            assert(all[c].events[k] == before[c].events[k]);
            assert(has_event(all[c], folder, rows[i].2 as int));
        }
    } else {
        let c = all.len() - 1;
        assert(all[c].folder == rows[i].0@);
        if rows[i].1 is Some {
            let folder = rows[i].1->0@;
            let k = all[c].events.len() - 1;
            lemma_name_below(all[c].folder, folder);
            assert(is_event_row(all[c].events[k], all[c].folder, folder, rows[i].2 as int));
        }
    }
}

proof fn lemma_name_below(country: Seq<char>, folder: Seq<char>)
    ensures
        after_start(folder, country.push('/')) matches Some(name) ==> folder == country + seq!['/']
            + name,
{
    let start = country.push('/');
    if starts(folder, start) {
        assert(folder =~= start + folder.skip(start.len() as int));
        assert(start =~= country + seq!['/']);
    }
}

proof fn lemma_countries_named(rows: Seq<(String, Option<String>, i64)>)
    ensures
        forall|c: int|
            0 <= c < countries_of(rows).len() ==> (#[trigger] countries_of(rows)[c]).name
                == countries_of(rows)[c].folder,
        rows.len() > 0 ==> countries_of(rows).len() > 0 && countries_of(rows).last().folder
            == rows.last().0@,
    decreases rows.len(),
{
    if rows.len() > 0 {
        lemma_countries_named(rows.drop_last());
        let before = countries_of(rows.drop_last());
        let all = countries_of(rows);
        assert forall|c: int| 0 <= c < all.len() implies (#[trigger] all[c]).name
            == all[c].folder by {
            if c < all.len() - 1 {
                assert(all[c] == before[c]);
            } else if before.len() == all.len() {
                assert(before[c].name == before[c].folder);
            }
        }
    }
}

/// Whether an event is this folder of a country with so many photos, named by what stands below
/// the country.
pub open spec fn is_event_row(
    event: (Seq<char>, Seq<char>, int),
    country: Seq<char>,
    folder: Seq<char>,
    photos: int,
) -> bool {
    &&& event.1 == folder
    &&& event.2 == photos
    &&& folder == country + seq!['/'] + event.0 || (event.0 == folder && after_start(
        folder,
        country.push('/'),
    ) is None)
}

pub open spec fn has_event(country: CountryView, folder: Seq<char>, photos: int) -> bool {
    exists|k: int|
        0 <= k < country.events.len() && is_event_row(
            #[trigger] country.events[k],
            country.folder,
            folder,
            photos,
        )
}

proof fn lemma_alikes_of(
    parent: Seq<char>,
    names: Seq<Seq<char>>,
    one: int,
    upto: int,
    pair: (Seq<char>, Seq<char>),
)
    requires
        0 <= one < names.len(),
        upto <= names.len(),
    ensures
        alikes_of(parent, names, one, upto).contains(pair) <==> exists|other: int|
            one < other < upto && alike_names(names[one], #[trigger] names[other]) && pair == (
                under(parent, names[one]),
                under(parent, names[other]),
            ),
    decreases upto - one,
{
    if upto > one + 1 {
        lemma_alikes_of(parent, names, one, upto - 1, pair);
        let before = alikes_of(parent, names, one, upto - 1);
        let last = (under(parent, names[one]), under(parent, names[upto - 1]));
        lemma_push_contains(before, last, pair);
        if alike_names(names[one], names[upto - 1]) && pair == last {
            assert(alike_names(names[one], names[upto - 1]));
        }
        if exists|other: int|
            one < other < upto - 1 && alike_names(names[one], #[trigger] names[other]) && pair == (
                under(parent, names[one]),
                under(parent, names[other]),
            ) {
            let other = choose|other: int|
                one < other < upto - 1 && alike_names(names[one], #[trigger] names[other]) && pair
                    == (under(parent, names[one]), under(parent, names[other]));
            assert(one < other < upto);
        }
    }
}

/// Two siblings are found to look alike exactly where their names do, each pair with the paths of
/// both.
pub proof fn siblings_that_look_alike_are_found(
    parent: Seq<char>,
    names: Seq<Seq<char>>,
    upto: int,
    pair: (Seq<char>, Seq<char>),
)
    requires
        0 <= upto <= names.len(),
    ensures
        alikes_before(parent, names, upto).contains(pair) <==> exists|one: int, other: int|
            0 <= one < upto && one < other < names.len() && alike_names(
                #[trigger] names[one],
                #[trigger] names[other],
            ) && pair == (under(parent, names[one]), under(parent, names[other])),
    decreases upto,
{
    if upto > 0 {
        let n = names.len() as int;
        siblings_that_look_alike_are_found(parent, names, upto - 1, pair);
        lemma_alikes_of(parent, names, upto - 1, n, pair);
        let before = alikes_before(parent, names, upto - 1);
        let more = alikes_of(parent, names, upto - 1, n);
        let all = before + more;
        if before.contains(pair) {
            let k = choose|k: int| 0 <= k < before.len() && before[k] == pair;
            assert(all[k] == pair);
            let (one, other) = choose|one: int, other: int|
                0 <= one < upto - 1 && one < other < names.len() && alike_names(
                    #[trigger] names[one],
                    #[trigger] names[other],
                ) && pair == (under(parent, names[one]), under(parent, names[other]));
            assert(0 <= one < upto);
        }
        if more.contains(pair) {
            let k = choose|k: int| 0 <= k < more.len() && more[k] == pair;
            assert(all[before.len() + k] == pair);
            let other = choose|other: int|
                upto - 1 < other < n && alike_names(names[upto - 1], #[trigger] names[other])
                    && pair == (under(parent, names[upto - 1]), under(parent, names[other]));
            assert(alike_names(names[upto - 1], names[other]));
        }
        if all.contains(pair) {
            let k = choose|k: int| 0 <= k < all.len() && all[k] == pair;
            if k < before.len() {
                assert(before[k] == pair);
            } else {
                assert(more[k - before.len()] == pair);
            }
        }
        if exists|one: int, other: int|
            0 <= one < upto && one < other < names.len() && alike_names(
                #[trigger] names[one],
                #[trigger] names[other],
            ) && pair == (under(parent, names[one]), under(parent, names[other])) {
            let (one, other) = choose|one: int, other: int|
                0 <= one < upto && one < other < names.len() && alike_names(
                    #[trigger] names[one],
                    #[trigger] names[other],
                ) && pair == (under(parent, names[one]), under(parent, names[other]));
            if one < upto - 1 {
                assert(before.contains(pair));
            } else {
                assert(more.contains(pair));
            }
        }
    }
}

} // verus!
