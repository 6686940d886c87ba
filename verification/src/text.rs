//! Text as sequences of characters: cutting it up, putting it together, and reading and writing
//! numbers in it.

use vstd::prelude::*;

verus! {

broadcast use vstd::string::group_string_axioms;

/// What a list of strings holds, as sequences of characters.
pub open spec fn views(texts: Seq<String>) -> Seq<Seq<char>> {
    Seq::new(texts.len(), |i: int| texts[i]@)
}

/// What an optional string holds.
pub open spec fn view_opt(text: Option<String>) -> Option<Seq<char>> {
    match text {
        Some(text) => Some(text@),
        None => None,
    }
}

/// `String::push` puts one character at the end of the string and changes nothing else.
pub assume_specification[ String::push ](s: &mut String, c: char)
    ensures
        final(s)@ == old(s)@.push(c),
;

/// The characters of a text.
pub fn chars(text: &str) -> (list: Vec<char>)
    ensures
        list@ == text@,
{
    let mut list: Vec<char> = Vec::new();
    for c in it: text.chars()
        invariant
            it.seq() == text@,
            list@ == text@.take(it.index()),
    {
        list.push(c);
    }
    list
}

/// The text made of the characters from one place up to another.
pub fn part(list: &[char], from: usize, to: usize) -> (text: String)
    requires
        from <= to <= list@.len(),
    ensures
        text@ == list@.subrange(from as int, to as int),
{
    let mut text = String::new();
    for i in from..to
        invariant
            from <= to <= list@.len(),
            text@ == list@.subrange(from as int, i as int),
    {
        text.push(list[i]);
        assert(text@ =~= list@.subrange(from as int, i + 1));
    }
    text
}

/// The text made of these characters.
pub fn text(list: &[char]) -> (text: String)
    ensures
        text@ == list@,
{
    let made = part(list, 0, list.len());
    assert(made@ =~= list@);
    made
}

/// A copy of a text.
pub fn copy(text: &str) -> (copied: String)
    ensures
        copied@ == text@,
{
    text.to_owned()
}

/// Whether a text has no characters.
pub fn empty(text: &str) -> (yes: bool)
    ensures
        yes == (text@.len() == 0),
{
    text.is_empty()
}

/// Whether two texts are the same.
pub fn same(one: &str, other: &str) -> (same: bool)
    ensures
        same == (one@ == other@),
{
    let a = chars(one);
    let b = chars(other);
    if a.len() != b.len() {
        return false;
    }
    for i in 0..a.len()
        invariant
            a@ == one@,
            b@ == other@,
            a@.len() == b@.len(),
            forall|j: int| 0 <= j < i ==> a@[j] == b@[j],
    {
        if a[i] != b[i] {
            return false;
        }
    }
    assert(a@ =~= b@);
    true
}

/// Whether two optional texts are the same.
pub fn same_opt(one: &Option<String>, other: &Option<String>) -> (equal: bool)
    ensures
        equal == (view_opt(*one) == view_opt(*other)),
{
    match (one, other) {
        (None, None) => true,
        (Some(a), Some(b)) => same(a, b),
        _ => false,
    }
}

/// Whether a list of texts holds this one.
pub fn holds(list: &[String], text: &str) -> (found: bool)
    ensures
        found == views(list@).contains(text@),
{
    for i in 0..list.len()
        invariant
            forall|j: int| 0 <= j < i ==> views(list@)[j] != text@,
    {
        if same(&list[i], text) {
            assert(views(list@)[i as int] == text@);
            return true;
        }
    }
    false
}

/// Whether two lists hold the same texts in the same order.
pub fn same_lists(one: &[String], other: &[String]) -> (equal: bool)
    ensures
        equal == (views(one@) == views(other@)),
{
    if one.len() != other.len() {
        assert(views(one@).len() != views(other@).len());
        return false;
    }
    for i in 0..one.len()
        invariant
            one@.len() == other@.len(),
            forall|j: int| 0 <= j < i ==> one@[j]@ == other@[j]@,
    {
        if !same(&one[i], &other[i]) {
            assert(views(one@)[i as int] != views(other@)[i as int]);
            return false;
        }
    }
    assert(views(one@) =~= views(other@));
    true
}

/// The texts of a list from one place up to another.
pub fn sub_list(list: &[String], from: usize, to: usize) -> (taken: Vec<String>)
    requires
        from <= to <= list@.len(),
    ensures
        views(taken@) == views(list@).subrange(from as int, to as int),
{
    let mut taken: Vec<String> = Vec::new();
    for i in from..to
        invariant
            from <= to <= list@.len(),
            views(taken@) == views(list@).subrange(from as int, i as int),
    {
        let ghost before = views(taken@);
        taken.push(list[i].clone());
        assert(views(taken@) =~= before.push(list@[i as int]@));
        assert(views(taken@) =~= views(list@).subrange(from as int, i + 1));
    }
    taken
}

/// A copy of a list of texts.
pub fn copy_list(list: &[String]) -> (copied: Vec<String>)
    ensures
        views(copied@) == views(list@),
{
    let copied = sub_list(list, 0, list.len());
    assert(views(list@).subrange(0, list@.len() as int) =~= views(list@));
    copied
}

// ---- White space -------------------------------------------------------------------------------

/// The characters of Unicode's `White_Space` property.
pub open spec fn white(c: char) -> bool {
    ||| 0x9 <= c as u32 <= 0xd
    ||| c as u32 == 0x20
    ||| c as u32 == 0x85
    ||| c as u32 == 0xa0
    ||| c as u32 == 0x1680
    ||| 0x2000 <= c as u32 <= 0x200a
    ||| c as u32 == 0x2028
    ||| c as u32 == 0x2029
    ||| c as u32 == 0x202f
    ||| c as u32 == 0x205f
    ||| c as u32 == 0x3000
}

pub fn is_white(c: char) -> (yes: bool)
    ensures
        yes == white(c),
{
    let n: u32 = c as u32;
    (n >= 0x9 && n <= 0xd) || n == 0x20 || n == 0x85 || n == 0xa0 || n == 0x1680 || (n >= 0x2000
        && n <= 0x200a) || n == 0x2028 || n == 0x2029 || n == 0x202f || n == 0x205f || n == 0x3000
}

/// A text without the white space at its start.
pub open spec fn trimmed_start(s: Seq<char>) -> Seq<char>
    decreases s.len(),
{
    if s.len() > 0 && white(s[0]) {
        trimmed_start(s.skip(1))
    } else {
        s
    }
}

/// A text without the white space at its end.
pub open spec fn trimmed_end(s: Seq<char>) -> Seq<char>
    decreases s.len(),
{
    if s.len() > 0 && white(s.last()) {
        trimmed_end(s.drop_last())
    } else {
        s
    }
}

/// A text without the white space around it.
pub open spec fn trimmed(s: Seq<char>) -> Seq<char> {
    trimmed_end(trimmed_start(s))
}

pub fn trim(text: &str) -> (trim: String)
    ensures
        trim@ == trimmed(text@),
{
    let list = chars(text);
    let mut from: usize = 0;
    assert(list@.skip(0) =~= list@);
    while from < list.len() && is_white(list[from])
        invariant
            from <= list@.len(),
            trimmed_start(list@) == trimmed_start(list@.skip(from as int)),
        decreases list.len() - from,
    {
        assert(list@.skip(from as int).skip(1) =~= list@.skip(from + 1));
        from += 1;
    }
    let ghost rest = list@.skip(from as int);
    assert(trimmed_start(list@) == rest);
    let mut to: usize = list.len();
    assert(list@.subrange(from as int, to as int) =~= rest);
    while to > from && is_white(list[to - 1])
        invariant
            from <= to <= list@.len(),
            trimmed_end(rest) == trimmed_end(list@.subrange(from as int, to as int)),
        decreases to,
    {
        assert(list@.subrange(from as int, to as int).drop_last() =~= list@.subrange(
            from as int,
            to - 1,
        ));
        to -= 1;
    }
    part(&list, from, to)
}

/// A text that neither starts nor ends with white space.
pub open spec fn tight(s: Seq<char>) -> bool {
    s.len() > 0 ==> !white(s[0]) && !white(s.last())
}

pub proof fn lemma_trimmed_start(s: Seq<char>)
    ensures
        trimmed_start(s).len() <= s.len(),
        trimmed_start(s) == s.skip(s.len() - trimmed_start(s).len()),
        trimmed_start(s).len() > 0 ==> !white(trimmed_start(s)[0]),
    decreases s.len(),
{
    if s.len() > 0 && white(s[0]) {
        lemma_trimmed_start(s.skip(1));
        let n = trimmed_start(s).len();
        assert(s.skip(1).skip(s.len() - 1 - n) =~= s.skip(s.len() - n));
    } else {
        assert(s.skip(0) =~= s);
    }
}

pub proof fn lemma_trimmed_end(s: Seq<char>)
    ensures
        trimmed_end(s).len() <= s.len(),
        trimmed_end(s) == s.take(trimmed_end(s).len() as int),
        trimmed_end(s).len() > 0 ==> !white(trimmed_end(s).last()),
    decreases s.len(),
{
    if s.len() > 0 && white(s.last()) {
        lemma_trimmed_end(s.drop_last());
        let n = trimmed_end(s).len() as int;
        assert(s.drop_last().take(n) =~= s.take(n));
    } else {
        assert(s.take(s.len() as int) =~= s);
    }
}

/// Trimming leaves no white space at either end, and a text without any as it is.
pub proof fn trimmed_is_tight(s: Seq<char>)
    ensures
        tight(trimmed(s)),
        tight(s) ==> trimmed(s) == s,
{
    trimmed_is_inside(s);
}

/// Trimming takes nothing but the white space before what it leaves and after it.
pub proof fn trimmed_is_inside(s: Seq<char>) -> (from: int)
    ensures
        0 <= from <= from + trimmed(s).len() <= s.len(),
        trimmed(s) == s.subrange(from, from + trimmed(s).len()),
        tight(trimmed(s)),
        tight(s) ==> trimmed(s) == s,
{
    lemma_trimmed_start(s);
    let t = trimmed_start(s);
    lemma_trimmed_end(t);
    let from = s.len() - t.len();
    assert(trimmed(s) =~= s.subrange(from, from + trimmed(s).len()));
    from
}

// ---- Cutting and joining -----------------------------------------------------------------------

/// The parts of a text between the separators, which is one part more than there are separators.
pub open spec fn split(s: Seq<char>, sep: char) -> Seq<Seq<char>>
    decreases s.len(),
{
    if s.len() == 0 {
        seq![Seq::empty()]
    } else {
        let before = split(s.drop_last(), sep);
        if s.last() == sep {
            before.push(Seq::empty())
        } else {
            before.drop_last().push(before.last().push(s.last()))
        }
    }
}

pub fn split_at_each(text: &str, sep: char) -> (parts: Vec<String>)
    ensures
        views(parts@) == split(text@, sep),
{
    let list = chars(text);
    let mut parts: Vec<String> = Vec::new();
    let mut open = String::new();
    assert(views(parts@).push(open@) =~= split(list@.take(0), sep));
    for i in 0..list.len()
        invariant
            views(parts@).push(open@) == split(list@.take(i as int), sep),
    {
        let ghost before = views(parts@).push(open@);
        assert(list@.take(i + 1).drop_last() =~= list@.take(i as int));
        assert(before.last() == open@);
        assert(before.drop_last() =~= views(parts@));
        if list[i] == sep {
            parts.push(open);
            open = String::new();
            assert(views(parts@) =~= before);
        } else {
            open.push(list[i]);
        }
    }
    assert(list@.take(list@.len() as int) =~= list@);
    let ghost all = views(parts@).push(open@);
    parts.push(open);
    assert(views(parts@) =~= all);
    parts
}

/// Texts one after another with a separator between them.
pub open spec fn joined(parts: Seq<Seq<char>>, sep: Seq<char>) -> Seq<char>
    decreases parts.len(),
{
    if parts.len() == 0 {
        Seq::empty()
    } else if parts.len() == 1 {
        parts[0]
    } else {
        joined(parts.drop_last(), sep) + sep + parts.last()
    }
}

pub fn join(parts: &[String], sep: &str) -> (whole: String)
    ensures
        whole@ == joined(views(parts@), sep@),
{
    let mut whole = String::new();
    for i in 0..parts.len()
        invariant
            whole@ == joined(views(parts@).take(i as int), sep@),
    {
        assert(views(parts@).take(i + 1).drop_last() =~= views(parts@).take(i as int));
        if i > 0 {
            whole.append(sep);
        }
        whole.append(&parts[i]);
        assert(views(parts@).take(i + 1)[i as int] == parts@[i as int]@);
        if i == 0 {
            assert(whole@ =~= parts@[0]@);
        }
    }
    assert(views(parts@).take(parts@.len() as int) =~= views(parts@));
    whole
}

/// No part of a split text holds the separator, and the parts joined again are the text.
pub proof fn split_parts_join_to_the_text(s: Seq<char>, sep: char)
    ensures
        split(s, sep).len() > 0,
        forall|i: int| 0 <= i < split(s, sep).len() ==> !(#[trigger] split(s, sep)[i]).contains(sep),
        joined(split(s, sep), seq![sep]) == s,
    decreases s.len(),
{
    if s.len() > 0 {
        let t = s.drop_last();
        split_parts_join_to_the_text(t, sep);
        let before = split(t, sep);
        let now = split(s, sep);
        if s.last() == sep {
            assert(now.drop_last() =~= before);
            assert(joined(now, seq![sep]) =~= t.push(sep));
        } else {
            let last = before.last().push(s.last());
            assert forall|i: int| 0 <= i < now.len() implies !(#[trigger] now[i]).contains(sep) by {
                if i < before.len() - 1 {
                    assert(now[i] == before[i]);
                } else {
                    assert(now[i] == last);
                    assert(!before[i].contains(sep));
                    if last.contains(sep) {
                        let k = choose|k: int| 0 <= k < last.len() && last[k] == sep;
                        assert(before[i][k] == sep);
                    }
                }
            }
            assert(now.last() == last);
            assert(now.drop_last() =~= before.drop_last());
            if now.len() == 1 {
                assert(joined(now, seq![sep]) =~= t.push(s.last()));
            } else {
                assert(joined(now, seq![sep]) =~= joined(before, seq![sep]).push(s.last()));
            }
        }
        assert(s =~= t.push(s.last()));
    } else {
        assert(joined(split(s, sep), seq![sep]) =~= s);
    }
}

proof fn lemma_split_extends(s: Seq<char>, more: Seq<char>, sep: char)
    requires
        !more.contains(sep),
    ensures
        split(s + more, sep) == split(s, sep).drop_last().push(split(s, sep).last() + more),
    decreases more.len(),
{
    split_parts_join_to_the_text(s, sep);
    if more.len() == 0 {
        assert(s + more =~= s);
        assert(split(s, sep).last() + more =~= split(s, sep).last());
        assert(split(s, sep).drop_last().push(split(s, sep).last()) =~= split(s, sep));
    } else {
        let less = more.drop_last();
        assert(more.last() != sep) by {
            assert(more[more.len() - 1] == more.last());
        }
        assert(!less.contains(sep)) by {
            if less.contains(sep) {
                let k = choose|k: int| 0 <= k < less.len() && less[k] == sep;
                assert(more[k] == sep);
            }
        }
        lemma_split_extends(s, less, sep);
        assert((s + more).drop_last() =~= s + less);
        assert((s + more).last() == more.last());
        let before = split(s + less, sep);
        assert(before.drop_last() =~= split(s, sep).drop_last());
        assert((split(s, sep).last() + less).push(more.last()) =~= split(s, sep).last() + more);
    }
}

/// Parts that do not hold the separator are what their joined text is split into.
pub proof fn joined_parts_split_again(parts: Seq<Seq<char>>, sep: char)
    requires
        parts.len() > 0,
        forall|i: int| 0 <= i < parts.len() ==> !(#[trigger] parts[i]).contains(sep),
    ensures
        split(joined(parts, seq![sep]), sep) == parts,
    decreases parts.len(),
{
    if parts.len() == 1 {
        lemma_split_extends(Seq::empty(), parts[0], sep);
        assert(Seq::<char>::empty() + parts[0] =~= parts[0]);
        assert(split(parts[0], sep) =~= parts);
    } else {
        let front = parts.drop_last();
        assert forall|i: int| 0 <= i < front.len() implies !(#[trigger] front[i]).contains(sep) by {
            assert(front[i] == parts[i]);
        }
        joined_parts_split_again(front, sep);
        let start = joined(front, seq![sep]) + seq![sep];
        assert(start.drop_last() =~= joined(front, seq![sep]));
        assert(split(start, sep) == front.push(Seq::empty()));
        assert(!parts.last().contains(sep)) by {
            assert(parts[parts.len() - 1] == parts.last());
        }
        lemma_split_extends(start, parts.last(), sep);
        assert(front.push(Seq::<char>::empty()).drop_last() =~= front);
        assert(Seq::<char>::empty() + parts.last() =~= parts.last());
        assert(front.push(parts.last()) =~= parts);
    }
}

/// Whether a text starts with another.
pub open spec fn starts(s: Seq<char>, start: Seq<char>) -> bool {
    start.len() <= s.len() && s.take(start.len() as int) == start
}

/// Whether a text ends with another.
pub open spec fn ends(s: Seq<char>, end: Seq<char>) -> bool {
    end.len() <= s.len() && s.skip(s.len() - end.len()) == end
}

pub fn starts_with(text: &str, start: &str) -> (yes: bool)
    ensures
        yes == starts(text@, start@),
{
    let a = chars(text);
    let b = chars(start);
    if b.len() > a.len() {
        return false;
    }
    for i in 0..b.len()
        invariant
            a@ == text@,
            b@ == start@,
            b@.len() <= a@.len(),
            forall|j: int| 0 <= j < i ==> a@[j] == b@[j],
    {
        if a[i] != b[i] {
            assert(text@.take(start@.len() as int)[i as int] != start@[i as int]);
            return false;
        }
    }
    assert(text@.take(start@.len() as int) =~= start@);
    true
}

pub fn ends_with(text: &str, end: &str) -> (yes: bool)
    ensures
        yes == ends(text@, end@),
{
    let a = chars(text);
    let b = chars(end);
    if b.len() > a.len() {
        return false;
    }
    let from: usize = a.len() - b.len();
    let tail = part(&a, from, a.len());
    assert(tail@ =~= text@.skip(text@.len() - end@.len()));
    same(&tail, end)
}

/// What follows `start` in a text that starts with it.
pub open spec fn after_start(s: Seq<char>, start: Seq<char>) -> Option<Seq<char>> {
    if starts(s, start) {
        Some(s.skip(start.len() as int))
    } else {
        None
    }
}

pub fn strip_start(text: &str, start: &str) -> (rest: Option<String>)
    ensures
        view_opt(rest) == after_start(text@, start@),
{
    if starts_with(text, start) {
        let list = chars(text);
        let n: usize = chars(start).len();
        let rest = part(&list, n, list.len());
        assert(rest@ =~= text@.skip(start@.len() as int));
        Some(rest)
    } else {
        None
    }
}

/// The place of the first such character, or the length of the text where there is none.
pub open spec fn first_at(s: Seq<char>, c: char) -> int
    decreases s.len(),
{
    if s.len() == 0 || s[0] == c {
        0
    } else {
        1 + first_at(s.skip(1), c)
    }
}

/// The place of the last such character, or -1 where there is none.
pub open spec fn last_at(s: Seq<char>, c: char) -> int
    decreases s.len(),
{
    if s.len() == 0 {
        -1
    } else if s.last() == c {
        s.len() - 1
    } else {
        last_at(s.drop_last(), c)
    }
}

pub proof fn lemma_first_at(s: Seq<char>, c: char)
    ensures
        0 <= first_at(s, c) <= s.len(),
        first_at(s, c) < s.len() ==> s[first_at(s, c)] == c,
        forall|i: int| 0 <= i < first_at(s, c) ==> s[i] != c,
        s.contains(c) <==> first_at(s, c) < s.len(),
    decreases s.len(),
{
    if s.len() == 0 || s[0] == c {
    } else {
        let t = s.skip(1);
        lemma_first_at(t, c);
        assert forall|i: int| 0 <= i < first_at(s, c) implies s[i] != c by {
            if i > 0 {
                assert(t[i - 1] == s[i]);
            }
        }
        if s.contains(c) {
            let i = choose|i: int| 0 <= i < s.len() && s[i] == c;
            assert(t[i - 1] == c);
        }
    }
}

pub proof fn lemma_last_at(s: Seq<char>, c: char)
    ensures
        -1 <= last_at(s, c) < s.len(),
        last_at(s, c) >= 0 ==> s[last_at(s, c)] == c,
        forall|i: int| last_at(s, c) < i < s.len() ==> s[i] != c,
        s.contains(c) <==> last_at(s, c) >= 0,
    decreases s.len(),
{
    if s.len() > 0 && s.last() != c {
        let t = s.drop_last();
        lemma_last_at(t, c);
        assert forall|i: int| last_at(s, c) < i < s.len() implies s[i] != c by {
            if i < t.len() {
                assert(t[i] == s[i]);
            }
        }
        if s.contains(c) {
            let i = choose|i: int| 0 <= i < s.len() && s[i] == c;
            assert(t[i] == c);
        }
    }
}

/// The place of the first such character, or the length where there is none.
pub fn find(list: &[char], c: char) -> (at: usize)
    ensures
        at == first_at(list@, c),
{
    for i in 0..list.len()
        invariant
            forall|j: int| 0 <= j < i ==> list@[j] != c,
    {
        if list[i] == c {
            proof {
                lemma_first_at(list@, c);
            }
            return i;
        }
    }
    proof {
        lemma_first_at(list@, c);
    }
    list.len()
}

/// Whether a text holds a character.
pub fn holds_char(text: &str, c: char) -> (yes: bool)
    ensures
        yes == text@.contains(c),
{
    let list = chars(text);
    let at: usize = find(&list, c);
    proof {
        lemma_first_at(text@, c);
    }
    at < list.len()
}

/// A text in two at the first separator, which belongs to neither part.
pub open spec fn cut(s: Seq<char>, sep: char) -> Option<(Seq<char>, Seq<char>)> {
    if s.contains(sep) {
        Some((s.take(first_at(s, sep)), s.skip(first_at(s, sep) + 1)))
    } else {
        None
    }
}

/// A text in two at the last separator, which belongs to neither part.
pub open spec fn cut_last(s: Seq<char>, sep: char) -> Option<(Seq<char>, Seq<char>)> {
    if s.contains(sep) {
        Some((s.take(last_at(s, sep)), s.skip(last_at(s, sep) + 1)))
    } else {
        None
    }
}

/// What an optional pair of strings holds.
pub open spec fn view_pair(pair: Option<(String, String)>) -> Option<(Seq<char>, Seq<char>)> {
    match pair {
        Some((a, b)) => Some((a@, b@)),
        None => None,
    }
}

pub fn split_once(text: &str, sep: char) -> (pair: Option<(String, String)>)
    ensures
        view_pair(pair) == cut(text@, sep),
{
    let list = chars(text);
    let at: usize = find(&list, sep);
    proof {
        lemma_first_at(text@, sep);
    }
    if at < list.len() {
        let a = part(&list, 0, at);
        let b = part(&list, at + 1, list.len());
        assert(a@ =~= text@.take(at as int));
        assert(b@ =~= text@.skip(at + 1));
        Some((a, b))
    } else {
        None
    }
}

pub fn split_last(text: &str, sep: char) -> (pair: Option<(String, String)>)
    ensures
        view_pair(pair) == cut_last(text@, sep),
{
    let list = chars(text);
    proof {
        lemma_last_at(text@, sep);
    }
    let mut at: usize = list.len();
    while at > 0
        invariant
            at <= list@.len(),
            list@ == text@,
            forall|j: int| at <= j < list@.len() ==> list@[j] != sep,
            -1 <= last_at(text@, sep) < text@.len(),
            last_at(text@, sep) >= 0 ==> text@[last_at(text@, sep)] == sep,
            forall|i: int| last_at(text@, sep) < i < text@.len() ==> text@[i] != sep,
            text@.contains(sep) <==> last_at(text@, sep) >= 0,
        decreases at,
    {
        at -= 1;
        if list[at] == sep {
            assert(last_at(text@, sep) == at);
            let a = part(&list, 0, at);
            let b = part(&list, at + 1, list.len());
            assert(a@ =~= text@.take(at as int));
            assert(b@ =~= text@.skip(at + 1));
            return Some((a, b));
        }
    }
    None
}

/// The place where a text first holds another, or one past its end where it does not.
pub open spec fn found_at(s: Seq<char>, pattern: Seq<char>) -> int
    decreases s.len(),
{
    if starts(s, pattern) {
        0
    } else if s.len() == 0 {
        1
    } else {
        1 + found_at(s.skip(1), pattern)
    }
}

/// A text in two where it first holds another, which belongs to neither part.
pub open spec fn cut_text(s: Seq<char>, pattern: Seq<char>) -> Option<(Seq<char>, Seq<char>)> {
    let at = found_at(s, pattern);
    if at <= s.len() {
        Some((s.take(at), s.skip(at + pattern.len())))
    } else {
        None
    }
}

pub proof fn lemma_found_at(s: Seq<char>, pattern: Seq<char>)
    ensures
        0 <= found_at(s, pattern) <= s.len() + 1,
        found_at(s, pattern) <= s.len() ==> starts(s.skip(found_at(s, pattern)), pattern),
        forall|i: int|
            0 <= i < found_at(s, pattern) && i <= s.len() ==> !starts(#[trigger] s.skip(i), pattern),
    decreases s.len(),
{
    assert(s.skip(0) =~= s);
    if !starts(s, pattern) && s.len() > 0 {
        let t = s.skip(1);
        lemma_found_at(t, pattern);
        let n = found_at(t, pattern);
        if n <= t.len() {
            assert(t.skip(n) =~= s.skip(n + 1));
        }
        assert forall|i: int| 0 <= i < n + 1 && i <= s.len() implies !starts(
            #[trigger] s.skip(i),
            pattern,
        ) by {
            if i > 0 {
                assert(t.skip(i - 1) =~= s.skip(i));
            }
        }
    }
}

/// A text in two where it first holds another.
pub fn split_at_text(text: &str, pattern: &str) -> (pair: Option<(String, String)>)
    ensures
        view_pair(pair) == cut_text(text@, pattern@),
{
    let list = chars(text);
    let wanted: usize = chars(pattern).len();
    let mut at: usize = 0;
    assert(text@.skip(0) =~= text@);
    loop
        invariant
            list@ == text@,
            wanted == pattern@.len(),
            at <= text@.len(),
            found_at(text@, pattern@) == at + found_at(text@.skip(at as int), pattern@),
        decreases text@.len() - at,
    {
        let rest = part(&list, at, list.len());
        assert(rest@ =~= text@.skip(at as int));
        if starts_with(&rest, pattern) {
            let a = part(&list, 0, at);
            let b = part(&list, at + wanted, list.len());
            assert(a@ =~= text@.take(at as int));
            assert(b@ =~= text@.skip(at + wanted));
            return Some((a, b));
        }
        if at == list.len() {
            return None;
        }
        assert(text@.skip(at as int).skip(1) =~= text@.skip(at + 1));
        at += 1;
    }
}

/// A text with every place that holds another filled by a third.
pub open spec fn replaced(s: Seq<char>, pattern: Seq<char>, with: Seq<char>) -> Seq<char>
    recommends
        pattern.len() > 0,
    decreases s.len(),
{
    if s.len() == 0 || pattern.len() == 0 {
        s
    } else if starts(s, pattern) {
        with + replaced(s.skip(pattern.len() as int), pattern, with)
    } else {
        seq![s[0]] + replaced(s.skip(1), pattern, with)
    }
}

pub fn replace(text: &str, pattern: &str, with: &str) -> (filled: String)
    requires
        pattern@.len() > 0,
    ensures
        filled@ == replaced(text@, pattern@, with@),
{
    let list = chars(text);
    let wanted: usize = chars(pattern).len();
    let mut filled = String::new();
    let mut at: usize = 0;
    assert(text@.skip(0) =~= text@);
    assert(filled@ + replaced(text@, pattern@, with@) =~= replaced(text@, pattern@, with@));
    while at < list.len()
        invariant
            list@ == text@,
            wanted == pattern@.len(),
            wanted > 0,
            at <= text@.len(),
            filled@ + replaced(text@.skip(at as int), pattern@, with@) == replaced(
                text@,
                pattern@,
                with@,
            ),
        decreases list.len() - at,
    {
        let ghost before = filled@;
        let rest = part(&list, at, list.len());
        assert(rest@ =~= text@.skip(at as int));
        if starts_with(&rest, pattern) {
            filled.append(with);
            assert(text@.skip(at as int).skip(wanted as int) =~= text@.skip(at + wanted));
            assert(filled@ + replaced(text@.skip(at + wanted), pattern@, with@) =~= before
                + replaced(text@.skip(at as int), pattern@, with@));
            at += wanted;
        } else {
            filled.push(list[at]);
            assert(text@.skip(at as int).skip(1) =~= text@.skip(at + 1));
            assert(filled@ + replaced(text@.skip(at + 1), pattern@, with@) =~= before + replaced(
                text@.skip(at as int),
                pattern@,
                with@,
            ));
            at += 1;
        }
    }
    assert(filled@ + Seq::<char>::empty() =~= filled@);
    assert(text@.skip(at as int) =~= Seq::<char>::empty());
    filled
}

/// Each of these texts without the white space around it.
pub open spec fn trimmed_all(parts: Seq<Seq<char>>) -> Seq<Seq<char>> {
    Seq::new(parts.len(), |i: int| trimmed(parts[i]))
}

pub fn trim_all(parts: &[String]) -> (all: Vec<String>)
    ensures
        views(all@) == trimmed_all(views(parts@)),
{
    let mut all: Vec<String> = Vec::new();
    for i in 0..parts.len()
        invariant
            views(all@) == trimmed_all(views(parts@)).take(i as int),
    {
        let ghost before = views(all@);
        all.push(trim(&parts[i]));
        assert(views(all@) =~= before.push(trimmed(parts@[i as int]@)));
        assert(views(all@) =~= trimmed_all(views(parts@)).take(i + 1));
    }
    assert(views(all@) =~= trimmed_all(views(parts@)));
    all
}

/// The words of a text that white space ends, and the word that is still open at its end.
pub open spec fn words_and_open(s: Seq<char>) -> (Seq<Seq<char>>, Seq<char>)
    decreases s.len(),
{
    if s.len() == 0 {
        (Seq::empty(), Seq::empty())
    } else {
        let (done, open) = words_and_open(s.drop_last());
        if !white(s.last()) {
            (done, open.push(s.last()))
        } else if open.len() > 0 {
            (done.push(open), Seq::empty())
        } else {
            (done, open)
        }
    }
}

/// The words of a text: what stands between its white space.
pub open spec fn words(s: Seq<char>) -> Seq<Seq<char>> {
    let (done, open) = words_and_open(s);
    if open.len() > 0 {
        done.push(open)
    } else {
        done
    }
}

pub fn split_words(text: &str) -> (list: Vec<String>)
    ensures
        views(list@) == words(text@),
{
    let source = chars(text);
    let mut list: Vec<String> = Vec::new();
    let mut open = String::new();
    assert(views(list@) =~= Seq::empty());
    for i in 0..source.len()
        invariant
            source@ == text@,
            (views(list@), open@) == words_and_open(text@.take(i as int)),
    {
        let ghost before = views(list@);
        assert(text@.take(i + 1).drop_last() =~= text@.take(i as int));
        if !is_white(source[i]) {
            open.push(source[i]);
        } else if !empty(&open) {
            list.push(open);
            open = String::new();
            assert(views(list@) =~= before.push(list@.last()@));
        }
    }
    assert(text@.take(text@.len() as int) =~= text@);
    let ghost before = views(list@);
    if !empty(&open) {
        list.push(open);
        assert(views(list@) =~= before.push(list@.last()@));
    }
    list
}

/// A text without white space.
pub open spec fn solid(s: Seq<char>) -> bool {
    forall|i: int| 0 <= i < s.len() ==> !white(#[trigger] s[i])
}

proof fn lemma_words_extend(s: Seq<char>, more: Seq<char>)
    requires
        solid(more),
    ensures
        words_and_open(s + more) == (words_and_open(s).0, words_and_open(s).1 + more),
    decreases more.len(),
{
    if more.len() == 0 {
        assert(s + more =~= s);
        assert(words_and_open(s).1 + more =~= words_and_open(s).1);
    } else {
        let less = more.drop_last();
        assert(solid(less)) by {
            assert forall|i: int| 0 <= i < less.len() implies !white(#[trigger] less[i]) by {
                assert(less[i] == more[i]);
            }
        }
        lemma_words_extend(s, less);
        assert((s + more).drop_last() =~= s + less);
        assert((s + more).last() == more.last());
        assert(more[more.len() - 1] == more.last());
        assert((words_and_open(s).1 + less).push(more.last()) =~= words_and_open(s).1 + more);
    }
}

proof fn lemma_words_solid(s: Seq<char>)
    ensures
        solid(words_and_open(s).1),
        forall|k: int|
            0 <= k < words_and_open(s).0.len() ==> solid(#[trigger] words_and_open(s).0[k])
                && words_and_open(s).0[k].len() > 0,
    decreases s.len(),
{
    if s.len() > 0 {
        lemma_words_solid(s.drop_last());
        let (done, open) = words_and_open(s.drop_last());
        let (now, rest) = words_and_open(s);
        assert forall|k: int| 0 <= k < now.len() implies solid(#[trigger] now[k]) && now[k].len()
            > 0 by {
            if k < done.len() {
                assert(now[k] == done[k]);
            }
        }
        assert forall|i: int| 0 <= i < rest.len() implies !white(#[trigger] rest[i]) by {
            if i < open.len() {
                assert(rest[i] == open[i]);
            }
        }
    }
}

/// No word of a text is empty, and none holds white space.
pub proof fn words_hold_no_white_space(s: Seq<char>)
    ensures
        forall|k: int|
            0 <= k < words(s).len() ==> (#[trigger] words(s)[k]).len() > 0 && solid(words(s)[k])
                && !words(s)[k].contains(' '),
{
    lemma_words_solid(s);
    let (done, open) = words_and_open(s);
    assert forall|k: int| 0 <= k < words(s).len() implies (#[trigger] words(s)[k]).len() > 0
        && solid(words(s)[k]) && !words(s)[k].contains(' ') by {
        if k < done.len() {
            assert(words(s)[k] == done[k]);
        } else {
            assert(words(s)[k] == open);
        }
        lemma_solid_has_no_space(words(s)[k]);
    }
}

pub proof fn lemma_solid_has_no_space(s: Seq<char>)
    requires
        solid(s),
    ensures
        !s.contains(' '),
{
    if s.contains(' ') {
        let i = choose|i: int| 0 <= i < s.len() && s[i] == ' ';
        assert(white(s[i]));
    }
}

/// Words joined by a space are the words of the text.
pub proof fn joined_words_split_again(parts: Seq<Seq<char>>)
    requires
        forall|i: int| 0 <= i < parts.len() ==> solid(#[trigger] parts[i]) && parts[i].len() > 0,
    ensures
        words(joined(parts, seq![' '])) == parts,
        parts.len() > 0 ==> words_and_open(joined(parts, seq![' '])) == (
            parts.drop_last(),
            parts.last(),
        ),
    decreases parts.len(),
{
    if parts.len() == 0 {
        assert(words(joined(parts, seq![' '])) =~= parts);
    } else {
        let last = parts.last();
        assert(parts[parts.len() - 1] == last);
        let none = Seq::<char>::empty();
        if parts.len() == 1 {
            lemma_words_extend(none, last);
            assert(none + last =~= last);
            assert(parts.drop_last() =~= Seq::<Seq<char>>::empty());
        } else {
            let front = parts.drop_last();
            assert forall|i: int| 0 <= i < front.len() implies solid(#[trigger] front[i])
                && front[i].len() > 0 by {
                assert(front[i] == parts[i]);
            }
            joined_words_split_again(front);
            let start = joined(front, seq![' ']) + seq![' '];
            assert(start.drop_last() =~= joined(front, seq![' ']));
            assert(front[front.len() - 1] == front.last());
            assert(words_and_open(start) == (front.drop_last().push(front.last()), none));
            assert(front.drop_last().push(front.last()) =~= front);
            lemma_words_extend(start, last);
            assert(none + last =~= last);
        }
        assert(parts.drop_last().push(last) =~= parts);
    }
}

// ---- Bytes -------------------------------------------------------------------------------------

/// How many bytes a character takes in UTF-8.
pub open spec fn width(c: char) -> nat {
    if (c as u32) < 0x80 {
        1
    } else if (c as u32) < 0x800 {
        2
    } else if (c as u32) < 0x10000 {
        3
    } else {
        4
    }
}

/// How many bytes a text takes in UTF-8.
pub open spec fn size(s: Seq<char>) -> nat
    decreases s.len(),
{
    if s.len() == 0 {
        0
    } else {
        size(s.drop_last()) + width(s.last())
    }
}

pub fn size_of(text: &str) -> (n: u128)
    ensures
        n == size(text@),
{
    let list = chars(text);
    let mut n: u128 = 0;
    for i in 0..list.len()
        invariant
            n == size(list@.take(i as int)),
            n <= 4 * i,
    {
        assert(list@.take(i + 1).drop_last() =~= list@.take(i as int));
        let c: u32 = list[i] as u32;
        n += if c < 0x80 {
            1
        } else if c < 0x800 {
            2
        } else if c < 0x10000 {
            3
        } else {
            4
        };
    }
    assert(list@.take(list@.len() as int) =~= list@);
    n
}

/// The first characters of a text that take so many bytes, where no character crosses that mark.
pub open spec fn head(s: Seq<char>, bytes: nat) -> Option<Seq<char>>
    decreases s.len(),
{
    if size(s) < bytes {
        None
    } else if size(s) == bytes {
        Some(s)
    } else {
        head(s.drop_last(), bytes)
    }
}

pub fn first_bytes(text: &str, bytes: u8) -> (start: Option<String>)
    ensures
        view_opt(start) == head(text@, bytes as nat),
{
    let list = chars(text);
    let wanted: u128 = bytes as u128;
    let mut n: u128 = size_of(text);
    let mut end: usize = list.len();
    assert(list@.take(end as int) =~= list@);
    while n > wanted
        invariant
            end <= list@.len(),
            list@ == text@,
            n == size(list@.take(end as int)),
            wanted == bytes,
            head(text@, bytes as nat) == head(list@.take(end as int), bytes as nat),
        decreases end,
    {
        assert(end > 0);
        assert(list@.take(end as int).drop_last() =~= list@.take(end - 1));
        let c: u32 = list[end - 1] as u32;
        n -= if c < 0x80 {
            1
        } else if c < 0x800 {
            2
        } else if c < 0x10000 {
            3
        } else {
            4
        };
        end -= 1;
    }
    if n == wanted {
        let start = part(&list, 0, end);
        assert(start@ =~= list@.take(end as int));
        Some(start)
    } else {
        None
    }
}

// ---- Numbers -----------------------------------------------------------------------------------

/// Whether a character is one of `0` to `9`.
pub open spec fn is_digit(c: char) -> bool {
    48 <= c as u32 <= 57
}

pub open spec fn all_digits(s: Seq<char>) -> bool {
    forall|i: int| 0 <= i < s.len() ==> is_digit(#[trigger] s[i])
}

/// The number that decimal digits stand for.
pub open spec fn value(s: Seq<char>) -> nat
    decreases s.len(),
{
    if s.len() == 0 {
        0
    } else {
        value(s.drop_last()) * 10 + (s.last() as u32 - 48) as nat
    }
}

/// The digit for a number below ten.
pub open spec fn digit(n: nat) -> char {
    (n + 48) as char
}

/// A number in decimal digits, without leading zeros.
pub open spec fn decimal(n: nat) -> Seq<char>
    decreases n,
{
    if n < 10 {
        seq![digit(n)]
    } else {
        decimal(n / 10).push(digit(n % 10))
    }
}

/// A number with its sign where it is below zero.
pub open spec fn signed(n: int) -> Seq<char> {
    if n < 0 {
        seq!['-'] + decimal((-n) as nat)
    } else {
        decimal(n as nat)
    }
}

/// So many zeros.
pub open spec fn zeros(n: nat) -> Seq<char> {
    Seq::new(n, |i: int| '0')
}

/// A number in decimal digits, filled up with leading zeros to a width.
pub open spec fn padded(n: nat, wide: nat) -> Seq<char> {
    if decimal(n).len() < wide {
        zeros((wide - decimal(n).len()) as nat) + decimal(n)
    } else {
        decimal(n)
    }
}

/// Reading a number back gives the number that was written.
pub proof fn decimal_reads_back(n: nat)
    ensures
        decimal(n).len() > 0,
        all_digits(decimal(n)),
        value(decimal(n)) == n,
    decreases n,
{
    if n < 10 {
        assert(value(Seq::<char>::empty()) == 0);
        assert(decimal(n).drop_last() =~= Seq::<char>::empty());
    } else {
        decimal_reads_back(n / 10);
        assert(decimal(n).drop_last() =~= decimal(n / 10));
    }
}

pub proof fn lemma_zeros_value(n: nat, s: Seq<char>)
    requires
        all_digits(s),
    ensures
        all_digits(zeros(n) + s),
        value(zeros(n) + s) == value(s),
    decreases n + s.len(),
{
    let whole = zeros(n) + s;
    if s.len() > 0 {
        lemma_zeros_value(n, s.drop_last());
        assert(whole.drop_last() =~= zeros(n) + s.drop_last());
        assert(whole.last() == s.last());
    } else if n > 0 {
        lemma_zeros_value((n - 1) as nat, s);
        assert(whole.drop_last() =~= zeros((n - 1) as nat) + s);
        assert(whole.last() == '0');
    } else {
        assert(whole =~= s);
    }
}

/// A number filled up with zeros is still read as the number.
pub proof fn padded_reads_back(n: nat, wide: nat)
    ensures
        padded(n, wide).len() >= wide,
        padded(n, wide).len() > 0,
        all_digits(padded(n, wide)),
        value(padded(n, wide)) == n,
{
    decimal_reads_back(n);
    if decimal(n).len() < wide {
        lemma_zeros_value((wide - decimal(n).len()) as nat, decimal(n));
    }
}

/// A number below a power of ten takes no more digits than that power has zeros.
pub proof fn lemma_decimal_len(n: nat)
    ensures
        n < 10 ==> decimal(n).len() == 1,
        10 <= n < 100 ==> decimal(n).len() == 2,
        100 <= n < 1000 ==> decimal(n).len() == 3,
        1000 <= n < 10000 ==> decimal(n).len() == 4,
{
    reveal_with_fuel(decimal, 4);
}

pub fn decimal_of(n: u64) -> (written: String)
    ensures
        written@ == decimal(n as nat),
    decreases n,
{
    if n < 10 {
        let mut written = String::new();
        written.push((n as u8 + 48) as char);
        assert(written@ =~= decimal(n as nat));
        written
    } else {
        let mut written = decimal_of(n / 10);
        written.push(((n % 10) as u8 + 48) as char);
        written
    }
}

pub fn signed_of(n: i64) -> (written: String)
    ensures
        written@ == signed(n as int),
{
    if n < 0 {
        let mut written = String::new();
        written.push('-');
        let size: u64 = if n == i64::MIN {
            0x8000_0000_0000_0000
        } else {
            (-n) as u64
        };
        written.append(&decimal_of(size));
        assert(written@ =~= signed(n as int));
        written
    } else {
        decimal_of(n as u64)
    }
}

pub fn padded_of(n: u64, wide: usize) -> (written: String)
    ensures
        written@ == padded(n as nat, wide as nat),
{
    let digits = decimal_of(n);
    let have: usize = chars(&digits).len();
    if have < wide {
        let mut written = String::new();
        for i in 0..wide - have
            invariant
                written@ == zeros(i as nat),
        {
            written.push('0');
            assert(written@ =~= zeros((i + 1) as nat));
        }
        written.append(&digits);
        written
    } else {
        digits
    }
}

/// Whether these characters are all decimal digits.
pub fn only_digits(list: &[char]) -> (yes: bool)
    ensures
        yes == all_digits(list@),
{
    for i in 0..list.len()
        invariant
            forall|j: int| 0 <= j < i ==> is_digit(#[trigger] list@[j]),
    {
        let c: u32 = list[i] as u32;
        if c < 48 || c > 57 {
            assert(!is_digit(list@[i as int]));
            return false;
        }
    }
    true
}

proof fn lemma_value_grows(s: Seq<char>, n: int)
    requires
        0 <= n <= s.len(),
        all_digits(s),
    ensures
        value(s.take(n)) <= value(s),
    decreases s.len(),
{
    if n < s.len() {
        lemma_value_grows(s.drop_last(), n);
        assert(s.drop_last().take(n) =~= s.take(n));
    } else {
        assert(s.take(n) =~= s);
    }
}

/// The number decimal digits stand for, where it is no larger than `most`.
pub open spec fn natural(s: Seq<char>, most: nat) -> Option<nat> {
    if s.len() > 0 && all_digits(s) && value(s) <= most {
        Some(value(s))
    } else {
        None
    }
}

pub open spec fn nat_opt(n: Option<u64>) -> Option<nat> {
    match n {
        Some(n) => Some(n as nat),
        None => None,
    }
}

pub fn read_natural(list: &[char], most: u64) -> (number: Option<u64>)
    ensures
        nat_opt(number) == natural(list@, most as nat),
{
    if list.len() == 0 || !only_digits(list) {
        return None;
    }
    let mut n: u64 = 0;
    for i in 0..list.len()
        invariant
            all_digits(list@),
            n == value(list@.take(i as int)),
            n <= most,
    {
        proof {
            assert(list@.take(i + 1).drop_last() =~= list@.take(i as int));
            assert(is_digit(list@[i as int]));
            lemma_value_grows(list@, i + 1);
        }
        let d: u64 = (list[i] as u32 - 48) as u64;
        let next: u128 = n as u128 * 10 + d as u128;
        if next > most as u128 {
            return None;
        }
        n = next as u64;
    }
    assert(list@.take(list@.len() as int) =~= list@);
    Some(n)
}

// ---- What the standard library knows of characters ----------------------------------------------

/// What `str::to_lowercase` makes of a text.
pub uninterp spec fn lowercased(s: Seq<char>) -> Seq<char>;

/// Whether a text is of ASCII characters alone.
pub open spec fn ascii(s: Seq<char>) -> bool {
    forall|i: int| 0 <= i < s.len() ==> #[trigger] s[i] <= '\x7f'
}

/// The small letter of a capital one of ASCII.
pub open spec fn small(c: char) -> char {
    if 'A' <= c && c <= 'Z' {
        (c as u32 + 32) as char
    } else {
        c
    }
}

/// `str::to_lowercase`: the lowercase form of the text, by Unicode's own tables. In a text of ASCII
/// alone the capital letters become the small ones, and nothing else changes; what it is for any
/// other text is not stated, only that it depends on the text alone.
#[verifier::external_body]
pub(crate) fn lowercase(text: &str) -> (lower: String)
    ensures
        lower@ == lowercased(text@),
        ascii(text@) ==> lower@ == text@.map_values(|c: char| small(c)),
{
    text.to_lowercase()
}

/// How `{:?}` writes a text.
pub uninterp spec fn quotation(s: Seq<char>) -> Seq<char>;

/// The text in double quotes with what is special in it escaped, as the formatting of a `str` with
/// `{:?}` gives it. How single characters are escaped is not stated.
#[verifier::external_body]
pub(crate) fn quoted(text: &str) -> (written: String)
    ensures
        written@ == quotation(text@),
{
    format!("{text:?}")
}

/// What `str::to_uppercase` makes of a text.
pub uninterp spec fn uppercased(s: Seq<char>) -> Seq<char>;

/// The capital letter of a small one of ASCII.
pub open spec fn capital(c: char) -> char {
    if 'a' <= c && c <= 'z' {
        (c as u32 - 32) as char
    } else {
        c
    }
}

/// `str::to_uppercase`: the uppercase form of the text, by Unicode's own tables. In a text of ASCII
/// alone the small letters become the capital ones, and nothing else changes; what it is for any
/// other text is not stated, only that it depends on the text alone.
#[verifier::external_body]
pub(crate) fn uppercase(text: &str) -> (upper: String)
    ensures
        upper@ == uppercased(text@),
        ascii(text@) ==> upper@ == text@.map_values(|c: char| capital(c)),
{
    text.to_uppercase()
}

/// What `char::is_alphanumeric` says of a character.
pub uninterp spec fn alphanumeric(c: char) -> bool;

/// Whether a character is a letter or a digit of ASCII.
pub open spec fn plain(c: char) -> bool {
    ('0' <= c && c <= '9') || ('a' <= c && c <= 'z') || ('A' <= c && c <= 'Z')
}

/// `char::is_alphanumeric`: whether a character is a letter or a number by Unicode's own tables.
/// Of ASCII the letters and the digits are; which others are is not stated.
#[verifier::external_body]
pub(crate) fn is_alphanumeric(c: char) -> (yes: bool)
    ensures
        yes == alphanumeric(c),
        c <= '\x7f' ==> yes == plain(c),
{
    c.is_alphanumeric()
}

/// What `char::is_numeric` says of a character.
pub uninterp spec fn numeric(c: char) -> bool;

/// `char::is_numeric`: whether a character is a number by Unicode's own tables. Of ASCII the digits
/// are; which others are is not stated.
#[verifier::external_body]
pub(crate) fn is_numeric(c: char) -> (yes: bool)
    ensures
        yes == numeric(c),
        c <= '\x7f' ==> yes == ('0' <= c && c <= '9'),
{
    c.is_numeric()
}

/// What `char::is_uppercase` says of a character.
pub uninterp spec fn upper_case(c: char) -> bool;

/// `char::is_uppercase`: whether a character is an uppercase letter by Unicode's own tables. Of
/// ASCII the capital letters are; which others are is not stated.
#[verifier::external_body]
pub(crate) fn is_upper(c: char) -> (yes: bool)
    ensures
        yes == upper_case(c),
        c <= '\x7f' ==> yes == ('A' <= c && c <= 'Z'),
{
    c.is_uppercase()
}

/// What `char::is_lowercase` says of a character.
pub uninterp spec fn lower_case(c: char) -> bool;

/// `char::is_lowercase`: whether a character is a lowercase letter by Unicode's own tables. Of ASCII
/// the small letters are; which others are is not stated.
#[verifier::external_body]
pub(crate) fn is_lower(c: char) -> (yes: bool)
    ensures
        yes == lower_case(c),
        c <= '\x7f' ==> yes == ('a' <= c && c <= 'z'),
{
    c.is_lowercase()
}

// ---- Lines and whole numbers -------------------------------------------------------------------

/// The lines of a text: what stands between the line ends, without a carriage return before one.
/// There is no empty line behind the last line end.
pub open spec fn lines(s: Seq<char>) -> Seq<Seq<char>> {
    let parts = split(s, '\n');
    let whole = parts.drop_last().map_values(|line: Seq<char>| without_return(line));
    if parts.last().len() == 0 {
        whole
    } else {
        whole.push(parts.last())
    }
}

pub open spec fn without_return(line: Seq<char>) -> Seq<char> {
    if line.len() > 0 && line.last() == '\r' {
        line.drop_last()
    } else {
        line
    }
}

/// The lines of a text.
pub fn split_lines(text: &str) -> (list: Vec<String>)
    ensures
        views(list@) == lines(text@),
{
    let parts = split_at_each(text, '\n');
    let ghost all = split(text@, '\n');
    proof {
        split_parts_join_to_the_text(text@, '\n');
        assert(views(parts@) == all);
        assert(parts@.len() == all.len());
    }
    let n: usize = parts.len() - 1;
    let ghost whole = all.drop_last().map_values(|line: Seq<char>| without_return(line));
    let mut list: Vec<String> = Vec::new();
    for i in 0..n
        invariant
            n == parts@.len() - 1,
            views(parts@) == all,
            whole == all.drop_last().map_values(|line: Seq<char>| without_return(line)),
            views(list@) == whole.take(i as int),
    {
        let ghost before = views(list@);
        assert(all[i as int] == parts@[i as int]@);
        let line = chars(&parts[i]);
        let end: usize = if line.len() > 0 && line[line.len() - 1] == '\r' {
            line.len() - 1
        } else {
            line.len()
        };
        let bare = part(&line, 0, end);
        assert(bare@ =~= without_return(all[i as int]));
        list.push(bare);
        assert(views(list@) =~= before.push(whole[i as int]));
        assert(whole.take(i + 1) =~= before.push(whole[i as int]));
    }
    assert(whole.take(n as int) =~= whole);
    assert(all.last() == parts@[n as int]@);
    if !empty(&parts[n]) {
        list.push(parts[n].clone());
        assert(views(list@) =~= whole.push(all.last()));
    }
    list
}

/// The whole number a text is: digits with a sign before them or none, and no larger than one
/// that is kept in 64 bits.
pub open spec fn integer(s: Seq<char>) -> Option<int> {
    if s.len() > 0 && s[0] == '-' {
        match natural(s.skip(1), 0x8000_0000_0000_0000) {
            Some(n) => Some(-n),
            None => None,
        }
    } else if s.len() > 0 && s[0] == '+' {
        match natural(s.skip(1), 0x7fff_ffff_ffff_ffff) {
            Some(n) => Some(n as int),
            None => None,
        }
    } else {
        match natural(s, 0x7fff_ffff_ffff_ffff) {
            Some(n) => Some(n as int),
            None => None,
        }
    }
}

/// A whole number of 64 bits is read back from what is written of it.
pub proof fn signed_numbers_are_read_back(n: int)
    requires
        i64::MIN <= n <= i64::MAX,
    ensures
        integer(signed(n)) == Some(n),
        trimmed(signed(n)) == signed(n),
{
    let size: nat = if n < 0 {
        (-n) as nat
    } else {
        n as nat
    };
    let digits = decimal(size);
    decimal_reads_back(size);
    let text = signed(n);
    assert(is_digit(digits[0]));
    assert(is_digit(digits[digits.len() - 1]));
    if n < 0 {
        assert(text.skip(1) =~= digits);
        assert(text[0] == '-');
    } else {
        assert(text == digits);
    }
    assert(text.last() == digits[digits.len() - 1]);
    assert(!white(text[0]) && !white(text.last()));
    assert(trimmed_start(text) == text);
    assert(trimmed_end(text) == text);
}

/// The whole number a text is.
pub fn read_integer(text: &str) -> (number: Option<i64>)
    ensures
        match number {
            Some(n) => integer(text@) == Some(n as int),
            None => integer(text@) is None,
        },
{
    let list = chars(text);
    let negative = list.len() > 0 && list[0] == '-';
    let from: usize = if negative || (list.len() > 0 && list[0] == '+') {
        1
    } else {
        0
    };
    let digits = chars(&part(&list, from, list.len()));
    proof {
        assert(list@.skip(0) =~= list@);
        assert(digits@ =~= list@.skip(from as int));
    }
    let most: u64 = if negative {
        0x8000_0000_0000_0000
    } else {
        0x7fff_ffff_ffff_ffff
    };
    match read_natural(&digits, most) {
        Some(n) => {
            if !negative {
                Some(n as i64)
            } else if n == 0x8000_0000_0000_0000 {
                Some(i64::MIN)
            } else {
                Some(-(n as i64))
            }
        },
        None => None,
    }
}

/// A text is cut in two at its first separator, or at its last, and what stood before and behind it
/// are the parts.
pub proof fn a_text_is_cut_at_its_separator(a: Seq<char>, b: Seq<char>, sep: char)
    ensures
        !a.contains(sep) ==> cut(a + seq![sep] + b, sep) == Some((a, b)),
        !b.contains(sep) ==> cut_last(a + seq![sep] + b, sep) == Some((a, b)),
        !a.contains(sep) ==> cut(a, sep) is None && cut_last(a, sep) is None,
{
    let s = a + seq![sep] + b;
    let n = a.len() as int;
    assert(s[n] == sep);
    lemma_first_at(s, sep);
    lemma_last_at(s, sep);
    if !a.contains(sep) {
        assert forall|i: int| 0 <= i < n implies s[i] != sep by {
            assert(s[i] == a[i]);
        }
        assert(first_at(s, sep) == n);
        assert(s.take(n) =~= a);
        assert(s.skip(n + 1) =~= b);
    }
    if !b.contains(sep) {
        assert forall|i: int| n < i < s.len() implies s[i] != sep by {
            assert(s[i] == b[i - n - 1]);
        }
        assert(last_at(s, sep) == n);
        assert(s.take(n) =~= a);
        assert(s.skip(n + 1) =~= b);
    }
}

/// Lines with line ends between them, or behind each of them, are the lines of the text.
pub proof fn joined_lines_split_again(parts: Seq<Seq<char>>)
    requires
        parts.len() > 0,
        parts.last().len() > 0,
        forall|i: int|
            0 <= i < parts.len() ==> !(#[trigger] parts[i]).contains('\n') && (parts[i].len() > 0
                ==> parts[i].last() != '\r'),
    ensures
        lines(joined(parts, seq!['\n'])) == parts,
        lines(joined(parts, seq!['\n']).push('\n')) == parts,
{
    let s = joined(parts, seq!['\n']);
    joined_parts_split_again(parts, '\n');
    let front = parts.drop_last();
    assert(front.map_values(|line: Seq<char>| without_return(line)) =~= front) by {
        assert forall|i: int| 0 <= i < front.len() implies without_return(#[trigger] front[i])
            == front[i] by {
            assert(front[i] == parts[i]);
        }
    }
    assert(front.push(parts.last()) =~= parts);
    let t = s.push('\n');
    assert(t.drop_last() =~= s);
    assert(split(t, '\n') == parts.push(Seq::empty()));
    assert(split(t, '\n').drop_last() =~= parts);
    assert(parts.map_values(|line: Seq<char>| without_return(line)) =~= parts) by {
        assert forall|i: int| 0 <= i < parts.len() implies without_return(#[trigger] parts[i])
            == parts[i] by {}
    }
}

} // verus!
