//! The order of texts, and lists kept in it.

use vstd::prelude::*;

use crate::text::{chars, same, views};

verus! {

/// Whether one text comes before another: by the first character in which they differ, a text
/// before those it is the start of.
pub open spec fn precedes(a: Seq<char>, b: Seq<char>) -> bool
    decreases a.len(),
{
    if b.len() == 0 {
        false
    } else if a.len() == 0 {
        true
    } else if a[0] == b[0] {
        precedes(a.skip(1), b.skip(1))
    } else {
        (a[0] as u32) < (b[0] as u32)
    }
}

/// No text comes before itself.
pub proof fn precedes_is_irreflexive(a: Seq<char>)
    ensures
        !precedes(a, a),
    decreases a.len(),
{
    if a.len() > 0 {
        precedes_is_irreflexive(a.skip(1));
    }
}

/// What comes before a text comes before everything after it.
pub proof fn precedes_is_transitive(a: Seq<char>, b: Seq<char>, c: Seq<char>)
    requires
        precedes(a, b),
        precedes(b, c),
    ensures
        precedes(a, c),
    decreases a.len(),
{
    if a.len() > 0 && a[0] == b[0] && b[0] == c[0] {
        precedes_is_transitive(a.skip(1), b.skip(1), c.skip(1));
    }
}

/// Of two different texts one comes before the other.
pub proof fn precedes_is_total(a: Seq<char>, b: Seq<char>)
    ensures
        precedes(a, b) || a == b || precedes(b, a),
    decreases a.len(),
{
    if a.len() == 0 || b.len() == 0 {
        assert(a.len() == 0 && b.len() == 0 ==> a =~= b);
    } else if a[0] == b[0] {
        precedes_is_total(a.skip(1), b.skip(1));
        if a.skip(1) == b.skip(1) {
            assert(a =~= seq![a[0]] + a.skip(1));
            assert(b =~= seq![b[0]] + b.skip(1));
        }
    } else {
        vstd::utf8::char_u32_cast(a[0], a[0] as u32);
        vstd::utf8::char_u32_cast(b[0], b[0] as u32);
    }
}

pub fn comes_before(one: &str, other: &str) -> (yes: bool)
    ensures
        yes == precedes(one@, other@),
{
    let a = chars(one);
    let b = chars(other);
    let mut i: usize = 0;
    assert(a@.skip(0) =~= a@);
    assert(b@.skip(0) =~= b@);
    while i < a.len() && i < b.len()
        invariant
            i <= a@.len(),
            i <= b@.len(),
            a@ == one@,
            b@ == other@,
            precedes(one@, other@) == precedes(a@.skip(i as int), b@.skip(i as int)),
        decreases a.len() - i,
    {
        if a[i] != b[i] {
            return (a[i] as u32) < (b[i] as u32);
        }
        assert(a@.skip(i as int).skip(1) =~= a@.skip(i + 1));
        assert(b@.skip(i as int).skip(1) =~= b@.skip(i + 1));
        i += 1;
    }
    i < b.len()
}

/// Texts in order, none of them twice.
pub open spec fn increasing(list: Seq<Seq<char>>) -> bool {
    forall|i: int, j: int|
        0 <= i < j < list.len() ==> precedes(#[trigger] list[i], #[trigger] list[j])
}

/// Whether a list is these texts in order, each once.
pub open spec fn is_in_order(list: Seq<Seq<char>>, set: Set<Seq<char>>) -> bool {
    &&& increasing(list)
    &&& forall|x: Seq<char>| #[trigger] list.contains(x) <==> set.contains(x)
}

/// The texts of a finite set in order.
pub open spec fn in_order(set: Set<Seq<char>>) -> Seq<Seq<char>> {
    choose|list: Seq<Seq<char>>| is_in_order(list, set)
}

/// There is only one way to put a set of texts in order.
pub proof fn order_is_unique(a: Seq<Seq<char>>, b: Seq<Seq<char>>)
    requires
        increasing(a),
        increasing(b),
        forall|x: Seq<char>| #[trigger] a.contains(x) <==> b.contains(x),
    ensures
        a == b,
    decreases a.len(),
{
    if a.len() == 0 {
        if b.len() > 0 {
            assert(b.contains(b[0]));
            assert(a.contains(b[0]));
        }
        assert(a =~= b);
    } else {
        assert(a.contains(a[0]));
        assert(b.contains(a[0]));
        let i = choose|i: int| 0 <= i < b.len() && b[i] == a[0];
        assert(b.contains(b[0]));
        assert(a.contains(b[0]));
        let j = choose|j: int| 0 <= j < a.len() && a[j] == b[0];
        if i > 0 {
            assert(precedes(b[0], b[i]));
            if j > 0 {
                assert(precedes(a[0], a[j]));
                precedes_is_transitive(a[0], b[0], a[0]);
            }
            precedes_is_irreflexive(a[0]);
        }
        assert(a[0] == b[0]);
        let c = a.skip(1);
        let d = b.skip(1);
        assert forall|x: Seq<char>| #[trigger] c.contains(x) <==> d.contains(x) by {
            if c.contains(x) {
                let k = choose|k: int| 0 <= k < c.len() && c[k] == x;
                assert(a[k + 1] == x);
                assert(a.contains(x));
                assert(precedes(a[0], a[k + 1]));
                let m = choose|m: int| 0 <= m < b.len() && b[m] == x;
                if m == 0 {
                    precedes_is_irreflexive(x);
                }
                assert(d[m - 1] == x);
            }
            if d.contains(x) {
                let k = choose|k: int| 0 <= k < d.len() && d[k] == x;
                assert(b[k + 1] == x);
                assert(b.contains(x));
                assert(a.contains(x));
                assert(precedes(b[0], b[k + 1]));
                let m = choose|m: int| 0 <= m < a.len() && a[m] == x;
                if m == 0 {
                    precedes_is_irreflexive(x);
                }
                assert(c[m - 1] == x);
            }
        }
        assert forall|i: int, j: int| 0 <= i < j < c.len() implies precedes(
            #[trigger] c[i],
            #[trigger] c[j],
        ) by {
            assert(precedes(a[i + 1], a[j + 1]));
        }
        assert forall|i: int, j: int| 0 <= i < j < d.len() implies precedes(
            #[trigger] d[i],
            #[trigger] d[j],
        ) by {
            assert(precedes(b[i + 1], b[j + 1]));
        }
        order_is_unique(c, d);
        assert(a =~= seq![a[0]] + c);
        assert(b =~= seq![b[0]] + d);
    }
}

/// A list that is a set in order is the set in order.
pub proof fn in_order_is(list: Seq<Seq<char>>, set: Set<Seq<char>>)
    requires
        is_in_order(list, set),
    ensures
        in_order(set) == list,
{
    let other = in_order(set);
    assert(is_in_order(other, set));
    order_is_unique(other, list);
}

/// The place of the first text of a list in order that does not come before `text`.
pub fn place(list: &[String], text: &str) -> (at: usize)
    requires
        increasing(views(list@)),
    ensures
        at <= list@.len(),
        forall|i: int| 0 <= i < at ==> precedes(#[trigger] list@[i]@, text@),
        forall|i: int| at <= i < list@.len() ==> !precedes(#[trigger] list@[i]@, text@),
{
    let mut low: usize = 0;
    let mut high: usize = list.len();
    while low < high
        invariant
            increasing(views(list@)),
            low <= high <= list@.len(),
            forall|i: int| 0 <= i < low ==> precedes(#[trigger] list@[i]@, text@),
            forall|i: int| high <= i < list@.len() ==> !precedes(#[trigger] list@[i]@, text@),
        decreases high - low,
    {
        let mid: usize = low + (high - low) / 2;
        if comes_before(&list[mid], text) {
            assert forall|i: int| 0 <= i < mid + 1 implies precedes(#[trigger] list@[i]@, text@) by {
                if i < mid {
                    assert(precedes(views(list@)[i], views(list@)[mid as int]));
                    precedes_is_transitive(list@[i]@, list@[mid as int]@, text@);
                }
            }
            low = mid + 1;
        } else {
            assert forall|i: int| mid <= i < list@.len() implies !precedes(
                #[trigger] list@[i]@,
                text@,
            ) by {
                if i > mid && precedes(list@[i]@, text@) {
                    assert(precedes(views(list@)[mid as int], views(list@)[i]));
                    precedes_is_transitive(list@[mid as int]@, list@[i]@, text@);
                }
            }
            high = mid;
        }
    }
    low
}

/// One more text in a list in order, unless it is there.
pub fn insert(list: &mut Vec<String>, text: String)
    requires
        increasing(views(old(list)@)),
    ensures
        increasing(views(final(list)@)),
        forall|x: Seq<char>| #[trigger]
            views(final(list)@).contains(x) <==> views(old(list)@).contains(x) || x == text@,
{
    let at: usize = place(list, &text);
    let ghost before = views(list@);
    let ghost x = text@;
    if at < list.len() && same(&list[at], &text) {
        assert(before[at as int] == x);
        assert(before.contains(x));
        return ;
    }
    proof {
        assert forall|i: int| at <= i < before.len() implies precedes(x, #[trigger] before[i]) by {
            precedes_is_total(before[i], x);
            assert(!precedes(list@[i]@, x));
            if before[i] == x {
                if i == at {
                    assert(list@[at as int]@ == x);
                } else {
                    assert(precedes(before[at as int], before[i]));
                }
            }
        }
    }
    list.insert(at, text);
    proof {
        let after = views(list@);
        assert(after =~= before.insert(at as int, x));
        assert forall|i: int, j: int| 0 <= i < j < after.len() implies precedes(
            #[trigger] after[i],
            #[trigger] after[j],
        ) by {
            if i < at && j > at {
                assert(precedes(before[i], before[j - 1]));
            } else if i > at && j > at {
                assert(precedes(before[i - 1], before[j - 1]));
            } else if i < at && j < at {
                assert(precedes(before[i], before[j]));
            } else if i == at {
                assert(precedes(x, before[j - 1]));
            } else {
                assert(after[j] == x);
                assert(after[i] == before[i]);
                assert(precedes(old(list)@[i]@, x));
            }
        }
        assert forall|y: Seq<char>| #[trigger] after.contains(y) <==> before.contains(y) || y
            == x by {
            if after.contains(y) {
                let k = choose|k: int| 0 <= k < after.len() && after[k] == y;
                if k < at {
                    assert(before[k] == y);
                } else if k > at {
                    assert(before[k - 1] == y);
                }
            }
            if before.contains(y) {
                let k = choose|k: int| 0 <= k < before.len() && before[k] == y;
                if k < at {
                    assert(after[k] == y);
                } else {
                    assert(after[k + 1] == y);
                }
            }
            assert(after[at as int] == x);
        }
    }
}

/// The texts of a list, each once, in order.
pub fn sorted_set(texts: &[String]) -> (list: Vec<String>)
    ensures
        views(list@) == in_order(views(texts@).to_set()),
        increasing(views(list@)),
        forall|x: Seq<char>| #[trigger] views(list@).contains(x) <==> views(texts@).contains(x),
{
    let mut list: Vec<String> = Vec::new();
    for i in 0..texts.len()
        invariant
            increasing(views(list@)),
            forall|x: Seq<char>| #[trigger]
                views(list@).contains(x) <==> views(texts@).take(i as int).contains(x),
    {
        let ghost before = views(texts@).take(i as int);
        let ghost after = views(texts@).take(i + 1);
        insert(&mut list, texts[i].clone());
        proof {
            assert(after =~= before.push(texts@[i as int]@));
            assert forall|x: Seq<char>| #[trigger] views(list@).contains(x) <==> after.contains(
                x,
            ) by {
                if before.contains(x) {
                    let k = choose|k: int| 0 <= k < before.len() && before[k] == x;
                    assert(after[k] == x);
                }
                if x == texts@[i as int]@ {
                    assert(after[i as int] == x);
                }
                if after.contains(x) {
                    let k = choose|k: int| 0 <= k < after.len() && after[k] == x;
                    if k < i {
                        assert(before[k] == x);
                    }
                }
            }
        }
    }
    proof {
        assert(views(texts@).take(texts@.len() as int) =~= views(texts@));
        in_order_is(views(list@), views(texts@).to_set());
    }
    list
}

proof fn lemma_put_in_order(list: Seq<Seq<char>>, x: Seq<char>) -> (more: Seq<Seq<char>>)
    requires
        increasing(list),
    ensures
        increasing(more),
        forall|y: Seq<char>| #[trigger] more.contains(y) <==> list.contains(y) || y == x,
    decreases list.len(),
{
    if list.len() == 0 {
        let more = seq![x];
        assert(more[0] == x);
        more
    } else {
        let last = list.last();
        let front = list.drop_last();
        assert(list[list.len() - 1] == last);
        assert forall|i: int, j: int| 0 <= i < j < front.len() implies precedes(
            #[trigger] front[i],
            #[trigger] front[j],
        ) by {
            assert(precedes(list[i], list[j]));
        }
        precedes_is_total(last, x);
        if last == x {
            list
        } else if precedes(last, x) {
            let more = list.push(x);
            assert forall|i: int, j: int| 0 <= i < j < more.len() implies precedes(
                #[trigger] more[i],
                #[trigger] more[j],
            ) by {
                if j == list.len() && i < list.len() - 1 {
                    assert(precedes(list[i], list[list.len() - 1]));
                    precedes_is_transitive(list[i], last, x);
                }
            }
            assert forall|y: Seq<char>| #[trigger] more.contains(y) <==> list.contains(y) || y
                == x by {
                if list.contains(y) {
                    let k = choose|k: int| 0 <= k < list.len() && list[k] == y;
                    assert(more[k] == y);
                }
                assert(more[list.len() as int] == x);
                if more.contains(y) {
                    let k = choose|k: int| 0 <= k < more.len() && more[k] == y;
                    if k < list.len() {
                        assert(list[k] == y);
                    }
                }
            }
            more
        } else {
            let start = lemma_put_in_order(front, x);
            let more = start.push(last);
            assert forall|i: int, j: int| 0 <= i < j < more.len() implies precedes(
                #[trigger] more[i],
                #[trigger] more[j],
            ) by {
                if j == start.len() {
                    assert(start.contains(start[i]));
                    if start[i] != x {
                        let k = choose|k: int| 0 <= k < front.len() && front[k] == start[i];
                        assert(precedes(list[k], list[list.len() - 1]));
                    }
                }
            }
            assert forall|y: Seq<char>| #[trigger] more.contains(y) <==> list.contains(y) || y
                == x by {
                if list.contains(y) {
                    let k = choose|k: int| 0 <= k < list.len() && list[k] == y;
                    if k < front.len() {
                        assert(front[k] == y);
                        assert(start.contains(y));
                        let m = choose|m: int| 0 <= m < start.len() && start[m] == y;
                        assert(more[m] == y);
                    } else {
                        assert(more[start.len() as int] == y);
                    }
                }
                if y == x {
                    assert(start.contains(x));
                    let m = choose|m: int| 0 <= m < start.len() && start[m] == x;
                    assert(more[m] == x);
                }
                if more.contains(y) {
                    let k = choose|k: int| 0 <= k < more.len() && more[k] == y;
                    if k < start.len() {
                        assert(start[k] == y);
                        assert(start.contains(y));
                        if front.contains(y) {
                            let m = choose|m: int| 0 <= m < front.len() && front[m] == y;
                            assert(list[m] == y);
                        }
                    }
                }
            }
            more
        }
    }
}

proof fn lemma_some_order(set: Set<Seq<char>>, texts: Seq<Seq<char>>) -> (list: Seq<Seq<char>>)
    ensures
        increasing(list),
        forall|y: Seq<char>| #[trigger]
            list.contains(y) <==> texts.contains(y) && set.contains(y),
    decreases texts.len(),
{
    if texts.len() == 0 {
        Seq::empty()
    } else {
        let front = texts.drop_last();
        let last = texts.last();
        let before = lemma_some_order(set, front);
        assert(texts[texts.len() - 1] == last);
        let list = if set.contains(last) {
            lemma_put_in_order(before, last)
        } else {
            before
        };
        assert forall|y: Seq<char>| #[trigger] list.contains(y) <==> texts.contains(y)
            && set.contains(y) by {
            assert(before.contains(y) <==> front.contains(y) && set.contains(y));
            if front.contains(y) {
                let k = choose|k: int| 0 <= k < front.len() && front[k] == y;
                assert(texts[k] == y);
            }
            if texts.contains(y) && y != last {
                let k = choose|k: int| 0 <= k < texts.len() && texts[k] == y;
                assert(front[k] == y);
            }
        }
        list
    }
}

/// Texts that are all among those of a list can be put in order.
pub proof fn order_exists(set: Set<Seq<char>>, texts: Seq<Seq<char>>)
    requires
        forall|y: Seq<char>| #[trigger] set.contains(y) ==> texts.contains(y),
    ensures
        is_in_order(in_order(set), set),
{
    let list = lemma_some_order(set, texts);
    assert(is_in_order(list, set));
}

// ---- Ranking -----------------------------------------------------------------------------------

/// Whether one of two places of a list comes first when the list is put in order: the one with the
/// text that comes first, and of two with the same text the one that stood first.
pub open spec fn ranks_before(keys: Seq<Seq<char>>, a: int, b: int) -> bool {
    precedes(keys[a], keys[b]) || (keys[a] == keys[b] && a < b)
}

pub open spec fn rising(keys: Seq<Seq<char>>, places: Seq<int>) -> bool {
    forall|i: int, j: int|
        0 <= i < j < places.len() ==> ranks_before(keys, #[trigger] places[i], #[trigger] places[j])
}

/// Whether these are the places from one to another, in the order of their texts.
pub open spec fn is_ranking(keys: Seq<Seq<char>>, places: Seq<int>, from: int, to: int) -> bool {
    &&& rising(keys, places)
    &&& forall|k: int| #[trigger] places.contains(k) <==> from <= k < to
    &&& places.len() == to - from
}

/// The places of a list in the order of their texts, as a stable sort leaves them.
pub open spec fn ranking(keys: Seq<Seq<char>>) -> Seq<int> {
    choose|places: Seq<int>| is_ranking(keys, places, 0, keys.len() as int)
}

/// A list put in the order of its texts.
pub open spec fn ranked<A>(list: Seq<A>, keys: Seq<Seq<char>>) -> Seq<A> {
    ranking(keys).map_values(|k: int| list[k])
}

proof fn lemma_ranks_once(keys: Seq<Seq<char>>, a: int, b: int)
    requires
        ranks_before(keys, a, b),
    ensures
        !ranks_before(keys, b, a),
        a != b,
{
    precedes_is_irreflexive(keys[a]);
    if precedes(keys[a], keys[b]) && precedes(keys[b], keys[a]) {
        precedes_is_transitive(keys[a], keys[b], keys[a]);
    }
    if precedes(keys[a], keys[b]) && keys[a] == keys[b] {
        precedes_is_irreflexive(keys[a]);
    }
    if keys[a] == keys[b] && precedes(keys[b], keys[a]) {
        precedes_is_irreflexive(keys[a]);
    }
}

proof fn lemma_ranks_on(keys: Seq<Seq<char>>, a: int, b: int, c: int)
    requires
        ranks_before(keys, a, b),
        ranks_before(keys, b, c),
    ensures
        ranks_before(keys, a, c),
{
    if precedes(keys[a], keys[b]) && precedes(keys[b], keys[c]) {
        precedes_is_transitive(keys[a], keys[b], keys[c]);
    }
}

/// There is only one way to put a list in order.
pub proof fn ranking_is_unique(keys: Seq<Seq<char>>, a: Seq<int>, b: Seq<int>)
    requires
        rising(keys, a),
        rising(keys, b),
        forall|k: int| #[trigger] a.contains(k) <==> b.contains(k),
    ensures
        a == b,
    decreases a.len(),
{
    if a.len() == 0 {
        if b.len() > 0 {
            assert(b.contains(b[0]));
            assert(a.contains(b[0]));
        }
        assert(a =~= b);
    } else {
        assert(a.contains(a[0]));
        assert(b.contains(a[0]));
        let i = choose|i: int| 0 <= i < b.len() && b[i] == a[0];
        assert(b.contains(b[0]));
        assert(a.contains(b[0]));
        let j = choose|j: int| 0 <= j < a.len() && a[j] == b[0];
        if i > 0 {
            assert(ranks_before(keys, b[0], b[i]));
            if j > 0 {
                assert(ranks_before(keys, a[0], a[j]));
                lemma_ranks_once(keys, a[0], b[0]);
            }
            lemma_ranks_once(keys, b[0], b[i]);
        }
        assert(a[0] == b[0]);
        let c = a.skip(1);
        let d = b.skip(1);
        assert forall|x: int| #[trigger] c.contains(x) <==> d.contains(x) by {
            if c.contains(x) {
                let k = choose|k: int| 0 <= k < c.len() && c[k] == x;
                assert(a[k + 1] == x);
                assert(a.contains(x));
                assert(ranks_before(keys, a[0], a[k + 1]));
                lemma_ranks_once(keys, a[0], x);
                let m = choose|m: int| 0 <= m < b.len() && b[m] == x;
                assert(d[m - 1] == x);
            }
            if d.contains(x) {
                let k = choose|k: int| 0 <= k < d.len() && d[k] == x;
                assert(b[k + 1] == x);
                assert(b.contains(x));
                assert(a.contains(x));
                assert(ranks_before(keys, b[0], b[k + 1]));
                lemma_ranks_once(keys, b[0], x);
                let m = choose|m: int| 0 <= m < a.len() && a[m] == x;
                assert(c[m - 1] == x);
            }
        }
        assert(rising(keys, c)) by {
            assert forall|i: int, j: int| 0 <= i < j < c.len() implies ranks_before(
                keys,
                #[trigger] c[i],
                #[trigger] c[j],
            ) by {
                assert(ranks_before(keys, a[i + 1], a[j + 1]));
            }
        }
        assert(rising(keys, d)) by {
            assert forall|i: int, j: int| 0 <= i < j < d.len() implies ranks_before(
                keys,
                #[trigger] d[i],
                #[trigger] d[j],
            ) by {
                assert(ranks_before(keys, b[i + 1], b[j + 1]));
            }
        }
        ranking_is_unique(keys, c, d);
        assert(a =~= seq![a[0]] + c);
        assert(b =~= seq![b[0]] + d);
    }
}

pub open spec fn places_of(places: Seq<usize>) -> Seq<int> {
    places.map_values(|k: usize| k as int)
}

fn goes_first(keys: &[String], a: usize, b: usize) -> (yes: bool)
    requires
        a < b < keys@.len(),
    ensures
        yes == ranks_before(views(keys@), a as int, b as int),
        !yes ==> ranks_before(views(keys@), b as int, a as int),
{
    proof {
        precedes_is_total(keys@[a as int]@, keys@[b as int]@);
        precedes_is_irreflexive(keys@[a as int]@);
        if precedes(keys@[a as int]@, keys@[b as int]@) && precedes(
            keys@[b as int]@,
            keys@[a as int]@,
        ) {
            precedes_is_transitive(
                keys@[a as int]@,
                keys@[b as int]@,
                keys@[a as int]@,
            );
        }
    }
    !comes_before(&keys[b], &keys[a])
}

/// The places from one to another, in the order of their texts.
#[verifier::rlimit(40)]
fn rank_between(keys: &[String], from: usize, to: usize) -> (places: Vec<usize>)
    requires
        from <= to <= keys@.len(),
    ensures
        is_ranking(views(keys@), places_of(places@), from as int, to as int),
    decreases to - from,
{
    let ghost texts = views(keys@);
    let mut places: Vec<usize> = Vec::new();
    if to - from == 0 {
        assert(places_of(places@) =~= Seq::empty());
        return places;
    }
    if to - from == 1 {
        places.push(from);
        assert(places_of(places@) =~= seq![from as int]);
        assert(places_of(places@)[0] == from);
        return places;
    }
    let mid: usize = from + (to - from) / 2;
    let left = rank_between(keys, from, mid);
    let right = rank_between(keys, mid, to);
    let ghost l = places_of(left@);
    let ghost r = places_of(right@);
    let mut i: usize = 0;
    let mut j: usize = 0;
    assert(places_of(places@) =~= Seq::empty());
    while i < left.len() || j < right.len()
        invariant
            from < mid < to <= keys@.len(),
            texts == views(keys@),
            l == places_of(left@),
            r == places_of(right@),
            is_ranking(texts, l, from as int, mid as int),
            is_ranking(texts, r, mid as int, to as int),
            i <= left@.len(),
            j <= right@.len(),
            places@.len() == i + j,
            rising(texts, places_of(places@)),
            forall|k: int| #[trigger]
                places_of(places@).contains(k) <==> l.take(i as int).contains(k) || r.take(
                    j as int,
                ).contains(k),
            forall|a: int, b: int|
                0 <= a < places@.len() && i <= b < l.len() ==> ranks_before(
                    texts,
                    #[trigger] places_of(places@)[a],
                    #[trigger] l[b],
                ),
            forall|a: int, b: int|
                0 <= a < places@.len() && j <= b < r.len() ==> ranks_before(
                    texts,
                    #[trigger] places_of(places@)[a],
                    #[trigger] r[b],
                ),
        decreases left@.len() - i + right@.len() - j,
    {
        let ghost before = places_of(places@);
        if i < left.len() {
            assert(l.contains(l[i as int]));
            assert(from <= left@[i as int] < mid);
        }
        if j < right.len() {
            assert(r.contains(r[j as int]));
            assert(mid <= right@[j as int] < to);
        }
        let first: bool = if i == left.len() {
            false
        } else if j == right.len() {
            true
        } else {
            goes_first(keys, left[i], right[j])
        };
        let next: usize = if first {
            left[i]
        } else {
            right[j]
        };
        places.push(next);
        proof {
            let now = places_of(places@);
            assert(now =~= before.push(next as int));
            if first {
                assert(l.take(i + 1) =~= l.take(i as int).push(l[i as int]));
                assert forall|b: int| j <= b < r.len() implies ranks_before(
                    texts,
                    next as int,
                    #[trigger] r[b],
                ) by {
                    if b > j {
                        assert(ranks_before(texts, r[j as int], r[b]));
                        lemma_ranks_on(texts, next as int, r[j as int], r[b]);
                    }
                }
            } else {
                assert(r.take(j + 1) =~= r.take(j as int).push(r[j as int]));
                assert forall|b: int| i <= b < l.len() implies ranks_before(
                    texts,
                    next as int,
                    #[trigger] l[b],
                ) by {
                    if b > i {
                        assert(ranks_before(texts, l[i as int], l[b]));
                        lemma_ranks_on(texts, next as int, l[i as int], l[b]);
                    }
                }
            }
            assert forall|k: int| #[trigger] now.contains(k) <==> (if first {
                l.take(i + 1).contains(k) || r.take(j as int).contains(k)
            } else {
                l.take(i as int).contains(k) || r.take(j + 1).contains(k)
            }) by {
                crate::browse::lemma_push_contains(before, next as int, k);
                assert(before.contains(k) <==> l.take(i as int).contains(k) || r.take(
                    j as int,
                ).contains(k));
                if first {
                    crate::browse::lemma_push_contains(l.take(i as int), l[i as int], k);
                } else {
                    crate::browse::lemma_push_contains(r.take(j as int), r[j as int], k);
                }
            }
            assert(rising(texts, now)) by {
                assert forall|a: int, b: int| 0 <= a < b < now.len() implies ranks_before(
                    texts,
                    #[trigger] now[a],
                    #[trigger] now[b],
                ) by {
                    if b == before.len() {
                        assert(now[a] == before[a]);
                        if first {
                            assert(ranks_before(texts, before[a], l[i as int]));
                        } else {
                            assert(ranks_before(texts, before[a], r[j as int]));
                        }
                    } else {
                        assert(ranks_before(texts, before[a], before[b]));
                    }
                }
            }
        }
        if first {
            i += 1;
        } else {
            j += 1;
        }
        assert forall|a: int, b: int| 0 <= a < places@.len() && i <= b < l.len() implies ranks_before(
            texts,
            #[trigger] places_of(places@)[a],
            #[trigger] l[b],
        ) by {
            if a < before.len() {
                assert(places_of(places@)[a] == before[a]);
            } else if first {
                assert(ranks_before(texts, l[i - 1], l[b]));
            }
        }
        assert forall|a: int, b: int| 0 <= a < places@.len() && j <= b < r.len() implies ranks_before(
            texts,
            #[trigger] places_of(places@)[a],
            #[trigger] r[b],
        ) by {
            if a < before.len() {
                assert(places_of(places@)[a] == before[a]);
            } else if !first {
                assert(ranks_before(texts, r[j - 1], r[b]));
            }
        }
    }
    assert(l.take(i as int) =~= l);
    assert(r.take(j as int) =~= r);
    places
}

/// The places of a list in the order of their texts.
pub fn rank(keys: &[String]) -> (places: Vec<usize>)
    ensures
        places_of(places@) == ranking(views(keys@)),
        is_ranking(views(keys@), places_of(places@), 0, keys@.len() as int),
        forall|i: int| 0 <= i < places@.len() ==> (#[trigger] places@[i]) < keys@.len(),
        places@.len() == keys@.len(),
{
    let places = rank_between(keys, 0, keys.len());
    proof {
        let texts = views(keys@);
        let found = places_of(places@);
        let other = ranking(texts);
        assert(is_ranking(texts, other, 0, texts.len() as int));
        ranking_is_unique(texts, found, other);
        assert forall|i: int| 0 <= i < places@.len() implies (#[trigger] places@[i])
            < keys@.len() by {
            assert(found[i] == places@[i]);
            assert(found.contains(found[i]));
        }
    }
    places
}

/// A list of texts put in order, as a stable sort leaves it.
pub fn sorted(list: &[String]) -> (sorted: Vec<String>)
    ensures
        views(sorted@) == ranked(views(list@), views(list@)),
{
    let places = rank(list);
    let mut sorted: Vec<String> = Vec::new();
    let ghost goal = ranked(views(list@), views(list@));
    for i in 0..places.len()
        invariant
            goal == ranked(views(list@), views(list@)),
            places_of(places@) == ranking(views(list@)),
            places@.len() == list@.len(),
            forall|k: int| 0 <= k < places@.len() ==> (#[trigger] places@[k]) < list@.len(),
            views(sorted@) == goal.take(i as int),
    {
        let ghost before = views(sorted@);
        assert(places_of(places@)[i as int] == places@[i as int]);
        sorted.push(list[places[i]].clone());
        assert(views(sorted@) =~= before.push(goal[i as int]));
        assert(goal.take(i + 1) =~= before.push(goal[i as int]));
    }
    assert(goal.take(places@.len() as int) =~= goal);
    sorted
}

// ---- Looking up --------------------------------------------------------------------------------

/// The last place of a text in a list.
pub open spec fn last_place(keys: Seq<Seq<char>>, text: Seq<char>) -> Option<int>
    decreases keys.len(),
{
    if keys.len() == 0 {
        None
    } else if keys.last() == text {
        Some(keys.len() - 1)
    } else {
        last_place(keys.drop_last(), text)
    }
}

/// A text is found where it stands last, and not found only where it does not stand at all.
pub proof fn a_text_is_found_where_it_stands_last(keys: Seq<Seq<char>>, text: Seq<char>)
    ensures
        last_place(keys, text) matches Some(k) ==> 0 <= k < keys.len() && keys[k] == text && (
        forall|j: int| k < j < keys.len() ==> #[trigger] keys[j] != text),
        last_place(keys, text) is None <==> (forall|j: int|
            0 <= j < keys.len() ==> #[trigger] keys[j] != text),
    decreases keys.len(),
{
    if keys.len() > 0 && keys.last() != text {
        let front = keys.drop_last();
        a_text_is_found_where_it_stands_last(front, text);
        assert forall|j: int| 0 <= j < front.len() implies front[j] == #[trigger] keys[j] by {}
    }
}

proof fn lemma_last_place(keys: Seq<Seq<char>>, text: Seq<char>, k: int)
    requires
        0 <= k < keys.len(),
        keys[k] == text,
        forall|j: int| k < j < keys.len() ==> keys[j] != text,
    ensures
        last_place(keys, text) == Some(k),
    decreases keys.len(),
{
    if k < keys.len() - 1 {
        let front = keys.drop_last();
        assert(keys[keys.len() - 1] != text);
        assert forall|j: int| k < j < front.len() implies front[j] != text by {
            assert(keys[j] != text);
        }
        lemma_last_place(front, text, k);
    }
}

proof fn lemma_no_place(keys: Seq<Seq<char>>, text: Seq<char>)
    requires
        !keys.contains(text),
    ensures
        last_place(keys, text) is None,
    decreases keys.len(),
{
    if keys.len() > 0 {
        assert(keys[keys.len() - 1] != text);
        let front = keys.drop_last();
        assert(!front.contains(text)) by {
            if front.contains(text) {
                let k = choose|k: int| 0 <= k < front.len() && front[k] == text;
                assert(keys[k] == text);
            }
        }
        lemma_no_place(front, text);
    }
}

/// The last place of a text in a list, by the list's ranking.
pub fn find_last(keys: &[String], places: &[usize], text: &str) -> (place: Option<usize>)
    requires
        is_ranking(views(keys@), places_of(places@), 0, keys@.len() as int),
    ensures
        match place {
            Some(k) => last_place(views(keys@), text@) == Some(k as int) && k < keys@.len(),
            None => last_place(views(keys@), text@) is None,
        },
{
    let ghost list = views(keys@);
    let ghost r = places_of(places@);
    let mut low: usize = 0;
    let mut high: usize = places.len();
    while low < high
        invariant
            list == views(keys@),
            r == places_of(places@),
            is_ranking(list, r, 0, keys@.len() as int),
            low <= high <= places@.len(),
            forall|i: int| 0 <= i < low ==> !precedes(text@, list[#[trigger] r[i]]),
            forall|i: int| high <= i < r.len() ==> precedes(text@, list[#[trigger] r[i]]),
        decreases high - low,
    {
        let mid: usize = low + (high - low) / 2;
        assert(r.contains(r[mid as int]));
        let key: usize = places[mid];
        assert(r[mid as int] == key);
        if comes_before(text, &keys[key]) {
            assert forall|i: int| mid <= i < r.len() implies precedes(
                text@,
                list[#[trigger] r[i]],
            ) by {
                if i > mid {
                    assert(ranks_before(list, r[mid as int], r[i]));
                    if precedes(list[r[mid as int]], list[r[i]]) {
                        precedes_is_transitive(text@, list[r[mid as int]], list[r[i]]);
                    }
                }
            }
            high = mid;
        } else {
            assert forall|i: int| 0 <= i < mid + 1 implies !precedes(
                text@,
                list[#[trigger] r[i]],
            ) by {
                if i < mid && precedes(text@, list[r[i]]) {
                    assert(ranks_before(list, r[i], r[mid as int]));
                    if precedes(list[r[i]], list[r[mid as int]]) {
                        precedes_is_transitive(text@, list[r[i]], list[r[mid as int]]);
                    }
                }
            }
            low = mid + 1;
        }
    }
    if low > 0 {
        let key: usize = places[low - 1];
        assert(r[low - 1] == key);
        assert(r.contains(r[low - 1]));
        if same(&keys[key], text) {
            proof {
                assert forall|j: int| key < j < list.len() implies list[j] != text@ by {
                    if list[j] == text@ {
                        assert(r.contains(j));
                        let p = choose|p: int| 0 <= p < r.len() && r[p] == j;
                        if p < low - 1 {
                            assert(ranks_before(list, r[p], r[low - 1]));
                            precedes_is_irreflexive(text@);
                        } else if p >= low {
                            assert(precedes(text@, list[r[p]]));
                            precedes_is_irreflexive(text@);
                        }
                    }
                }
                lemma_last_place(list, text@, key as int);
            }
            return Some(key);
        }
    }
    proof {
        if list.contains(text@) {
            let j = choose|j: int| 0 <= j < list.len() && list[j] == text@;
            assert(r.contains(j));
            let p = choose|p: int| 0 <= p < r.len() && r[p] == j;
            precedes_is_irreflexive(text@);
            if p >= low {
                assert(precedes(text@, list[r[p]]));
            } else {
                assert(!precedes(text@, list[r[low - 1]]));
                if p < low - 1 {
                    assert(ranks_before(list, r[p], r[low - 1]));
                }
            }
        }
        lemma_no_place(list, text@);
    }
    None
}

} // verus!
