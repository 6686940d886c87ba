//! What the folders say about a photo, read against the layout the user chose: the levels above
//! the event folder (`Country/City`, `Year/Country`, none at all), then the event folder
//! `YYYY-MM-DD Event`, then any sub-folders. The event folder is found by its date wherever it
//! is, so a library in another layout still has its events - they are only off the layout. A date
//! may have holes (`2006-09-00`), and what does not fit is reported, never guessed.

use vstd::arithmetic::power2::{lemma2_to64, lemma_pow2_pos, lemma_pow2_unfold, pow2};
use vstd::prelude::*;

use crate::text::{
    after_start, all_digits, chars, copy, empty, first_bytes, head, holds_char, join, joined,
    natural, only_digits, part, read_natural, same, split, split_at_each, strip_start, sub_list,
    tight, trim, trimmed, view_opt, views,
};

verus! {

/// What a level above the event folder is named after.
#[derive(Debug, Clone, PartialEq, Eq, Hash)]
pub enum Component {
    Country,
    /// The state or province, as the place data names it.
    Region,
    City,
    /// `2019`, the year of the event.
    Year,
    /// `2019-07`, the year and month of the event.
    Month,
    /// The tag the event's photos carry right under this root: `topics/Sailing` -> `Sailing`.
    Tag(String),
}

/// What a [`Component`] is, its root as characters.
pub enum ComponentView {
    Country,
    Region,
    City,
    Year,
    Month,
    Tag(Seq<char>),
}

impl View for Component {
    type V = ComponentView;

    open spec fn view(&self) -> ComponentView {
        match *self {
            Component::Country => ComponentView::Country,
            Component::Region => ComponentView::Region,
            Component::City => ComponentView::City,
            Component::Year => ComponentView::Year,
            Component::Month => ComponentView::Month,
            Component::Tag(root) => ComponentView::Tag(root@),
        }
    }
}

/// What a folder name looks like, which is all a parser can tell levels apart by.
#[derive(Debug, Clone, Copy, PartialEq, Eq, Structural)]
pub enum Shape {
    Year,
    Month,
    Name,
}

/// A folder name is a year when it is four digits, and a month when it is four digits, a dash and
/// two digits.
pub open spec fn shape_of(folder: Seq<char>) -> Shape {
    if folder.len() == 4 && all_digits(folder) {
        Shape::Year
    } else if folder.len() == 7 && all_digits(folder.subrange(0, 4)) && folder[4] == '-'
        && all_digits(folder.subrange(5, 7)) {
        Shape::Month
    } else {
        Shape::Name
    }
}

impl Shape {
    fn of(folder: &str) -> (shape: Shape)
        ensures
            shape == shape_of(folder@),
    {
        let list = chars(folder);
        if list.len() == 4 && only_digits(&list) {
            return Shape::Year;
        }
        if list.len() == 7 && list[4] == '-' {
            let year = chars(&part(&list, 0, 4));
            let month = chars(&part(&list, 5, 7));
            if only_digits(&year) && only_digits(&month) {
                return Shape::Month;
            }
        }
        Shape::Name
    }
}

/// A folder name that is neither a year nor a month, as a country, a city or a tag folder is.
pub fn plain_name(folder: &str) -> (plain: bool)
    ensures
        plain == (shape_of(folder@) == Shape::Name),
{
    Shape::of(folder) == Shape::Name
}

impl ComponentView {
    /// What the level is called.
    pub open spec fn title(self) -> Seq<char> {
        match self {
            ComponentView::Country => "Country"@,
            ComponentView::Region => "Region"@,
            ComponentView::City => "City"@,
            ComponentView::Year => "Year"@,
            ComponentView::Month => "Month"@,
            ComponentView::Tag(root) => if root.len() == 0 {
                "Tag"@
            } else {
                "Tag under "@ + root
            },
        }
    }

    /// The text the level is kept as.
    pub open spec fn key(self) -> Seq<char> {
        match self {
            ComponentView::Country => "country"@,
            ComponentView::Region => "region"@,
            ComponentView::City => "city"@,
            ComponentView::Year => "year"@,
            ComponentView::Month => "month"@,
            ComponentView::Tag(root) => "tag:"@ + root,
        }
    }

    /// What its folders look like.
    pub open spec fn shape(self) -> Shape {
        match self {
            ComponentView::Year => Shape::Year,
            ComponentView::Month => Shape::Month,
            _ => Shape::Name,
        }
    }
}

/// The level a key stands for.
pub open spec fn component_of(key: Seq<char>) -> Option<ComponentView> {
    if key == "country"@ {
        Some(ComponentView::Country)
    } else if key == "region"@ {
        Some(ComponentView::Region)
    } else if key == "city"@ {
        Some(ComponentView::City)
    } else if key == "year"@ {
        Some(ComponentView::Year)
    } else if key == "month"@ {
        Some(ComponentView::Month)
    } else {
        match after_start(key, "tag:"@) {
            Some(root) => Some(ComponentView::Tag(root)),
            None => None,
        }
    }
}

pub open spec fn component_opt(component: Option<Component>) -> Option<ComponentView> {
    match component {
        Some(component) => Some(component@),
        None => None,
    }
}

impl Component {
    /// Every kind of level, a tag with an empty root standing for any root.
    pub fn kinds() -> (kinds: [Component; 6])
        ensures
            kinds@[0]@ == ComponentView::Country,
            kinds@[1]@ == ComponentView::Region,
            kinds@[2]@ == ComponentView::City,
            kinds@[3]@ == ComponentView::Year,
            kinds@[4]@ == ComponentView::Month,
            kinds@[5]@ == ComponentView::Tag(Seq::empty()),
    {
        [
            Component::Country,
            Component::Region,
            Component::City,
            Component::Year,
            Component::Month,
            Component::Tag(String::new()),
        ]
    }

    pub fn title(&self) -> (title: String)
        ensures
            title@ == self@.title(),
    {
        match self {
            Component::Country => copy("Country"),
            Component::Region => copy("Region"),
            Component::City => copy("City"),
            Component::Year => copy("Year"),
            Component::Month => copy("Month"),
            Component::Tag(root) => {
                if empty(root) {
                    copy("Tag")
                } else {
                    copy("Tag under ").concat(root)
                }
            },
        }
    }

    fn key(&self) -> (key: String)
        ensures
            key@ == self@.key(),
    {
        match self {
            Component::Country => copy("country"),
            Component::Region => copy("region"),
            Component::City => copy("city"),
            Component::Year => copy("year"),
            Component::Month => copy("month"),
            Component::Tag(root) => copy("tag:").concat(root),
        }
    }

    fn from_key(key: &str) -> (component: Option<Component>)
        ensures
            component_opt(component) == component_of(key@),
    {
        if same(key, "country") {
            Some(Component::Country)
        } else if same(key, "region") {
            Some(Component::Region)
        } else if same(key, "city") {
            Some(Component::City)
        } else if same(key, "year") {
            Some(Component::Year)
        } else if same(key, "month") {
            Some(Component::Month)
        } else {
            match strip_start(key, "tag:") {
                Some(root) => Some(Component::Tag(root)),
                None => None,
            }
        }
    }

    fn shape(&self) -> (shape: Shape)
        ensures
            shape == self@.shape(),
    {
        match self {
            Component::Year => Shape::Year,
            Component::Month => Shape::Month,
            _ => Shape::Name,
        }
    }

    /// Whether two components are the same level.
    pub fn is(&self, other: &Component) -> (same: bool)
        ensures
            same == (self@ == other@),
    {
        match (self, other) {
            (Component::Country, Component::Country) => true,
            (Component::Region, Component::Region) => true,
            (Component::City, Component::City) => true,
            (Component::Year, Component::Year) => true,
            (Component::Month, Component::Month) => true,
            (Component::Tag(one), Component::Tag(two)) => same(one, two),
            _ => false,
        }
    }

    /// Another component of the same kind.
    pub fn copy(&self) -> (copied: Component)
        ensures
            copied@ == self@,
    {
        match self {
            Component::Country => Component::Country,
            Component::Region => Component::Region,
            Component::City => Component::City,
            Component::Year => Component::Year,
            Component::Month => Component::Month,
            Component::Tag(root) => Component::Tag(root.clone()),
        }
    }
}

/// One level above the event folder. An optional one may be left out, as an event without a city
/// sits right in its country.
#[derive(Debug, Clone, PartialEq, Eq, Hash)]
pub struct Level {
    pub component: Component,
    pub optional: bool,
}

pub struct LevelView {
    pub component: ComponentView,
    pub optional: bool,
}

impl View for Level {
    type V = LevelView;

    open spec fn view(&self) -> LevelView {
        LevelView { component: self.component@, optional: self.optional }
    }
}

impl LevelView {
    /// The text the level is kept as.
    pub open spec fn written(self) -> Seq<char> {
        if self.optional {
            self.component.key() + "?"@
        } else {
            self.component.key()
        }
    }

    /// What the level is called, in brackets where it may be left out.
    pub open spec fn title(self) -> Seq<char> {
        if self.optional {
            "("@ + self.component.title() + ")"@
        } else {
            self.component.title()
        }
    }
}

/// The folder levels above the event folder, in order.
#[derive(Debug, Clone, PartialEq, Eq, Hash)]
pub struct Layout {
    pub levels: Vec<Level>,
}

impl View for Layout {
    type V = Seq<LevelView>;

    open spec fn view(&self) -> Seq<LevelView> {
        Seq::new(self.levels@.len(), |i: int| self.levels@[i]@)
    }
}

/// The text each level is kept as.
pub open spec fn written_levels(levels: Seq<LevelView>) -> Seq<Seq<char>> {
    Seq::new(levels.len(), |i: int| levels[i].written())
}

/// The text a layout is kept as: its levels with slashes between them.
pub open spec fn written(levels: Seq<LevelView>) -> Seq<char> {
    joined(written_levels(levels), seq!['/'])
}

/// The level one part of a layout's text stands for, or why it is none.
pub open spec fn level_of(part: Seq<char>) -> Result<LevelView, Seq<char>> {
    let optional = part.len() > 0 && part.last() == '?';
    let key = if optional {
        part.drop_last()
    } else {
        part
    };
    match component_of(key) {
        Some(component) => Ok(LevelView { component, optional }),
        None => Err(key + " is not a folder level"@),
    }
}

/// The levels the parts of a layout's text stand for, the empty ones left out, or why the first
/// that is none is none.
pub open spec fn levels_of(parts: Seq<Seq<char>>) -> Result<Seq<LevelView>, Seq<char>>
    decreases parts.len(),
{
    if parts.len() == 0 {
        Ok(Seq::empty())
    } else {
        match levels_of(parts.drop_last()) {
            Err(why) => Err(why),
            Ok(levels) => {
                let last = trimmed(parts.last());
                if last.len() == 0 {
                    Ok(levels)
                } else {
                    match level_of(last) {
                        Err(why) => Err(why),
                        Ok(level) => Ok(levels.push(level)),
                    }
                }
            },
        }
    }
}

/// The root of a tag level has to be the name of one top-level tag.
pub open spec fn root_named(root: Seq<char>) -> bool {
    trimmed(root).len() > 0 && !root.contains('/') && trimmed(root) == root
}

/// Whether a component is among these levels.
pub open spec fn has_component(levels: Seq<LevelView>, component: ComponentView) -> bool {
    exists|i: int| 0 <= i < levels.len() && (#[trigger] levels[i]).component == component
}

/// What is wrong with the levels one by one: a tag without a root, or a level that is there twice.
pub open spec fn names_fault(levels: Seq<LevelView>) -> Option<Seq<char>>
    decreases levels.len(),
{
    if levels.len() == 0 {
        None
    } else {
        match names_fault(levels.drop_last()) {
            Some(why) => Some(why),
            None => {
                let component = levels.last().component;
                if component matches ComponentView::Tag(root) && !root_named(root) {
                    Some("a tag level needs the name of a top-level tag as its root"@)
                } else if has_component(levels.drop_last(), component) {
                    Some(component.title() + " is there twice"@)
                } else {
                    None
                }
            },
        }
    }
}

/// How many of the levels may be left out.
pub open spec fn optional_count(levels: Seq<LevelView>) -> nat
    decreases levels.len(),
{
    if levels.len() == 0 {
        0
    } else {
        optional_count(levels.skip(1)) + if levels[0].optional {
            1nat
        } else {
            0nat
        }
    }
}

/// The shapes of the levels that are there, when of the optional ones those marked are left out.
pub open spec fn shapes_left(levels: Seq<LevelView>, left_out: Seq<bool>) -> Seq<Shape>
    decreases levels.len(),
{
    if levels.len() == 0 {
        Seq::empty()
    } else if levels[0].optional {
        let rest = shapes_left(levels.skip(1), left_out.skip(1));
        if left_out[0] {
            rest
        } else {
            seq![levels[0].component.shape()] + rest
        }
    } else {
        seq![levels[0].component.shape()] + shapes_left(levels.skip(1), left_out)
    }
}

/// What the optional levels are called that are left out in one way and not in the other.
pub open spec fn titles_apart(levels: Seq<LevelView>, one: Seq<bool>, other: Seq<bool>) -> Seq<
    Seq<char>,
>
    decreases levels.len(),
{
    if levels.len() == 0 {
        Seq::empty()
    } else if levels[0].optional {
        let rest = titles_apart(levels.skip(1), one.skip(1), other.skip(1));
        if one[0] != other[0] {
            seq![levels[0].component.title()] + rest
        } else {
            rest
        }
    } else {
        titles_apart(levels.skip(1), one, other)
    }
}

/// The ways to leave levels out, counted: the binary digits of a number, the lowest first.
pub open spec fn way(n: nat, count: nat) -> Seq<bool>
    decreases count,
{
    if count == 0 {
        Seq::empty()
    } else {
        seq![n % 2 == 1] + way(n / 2, (count - 1) as nat)
    }
}

/// Which way this is.
pub open spec fn number(way: Seq<bool>) -> nat
    decreases way.len(),
{
    if way.len() == 0 {
        0
    } else {
        2 * number(way.skip(1)) + if way[0] {
            1nat
        } else {
            0nat
        }
    }
}

/// An earlier way that leaves the same shapes as the way of this number.
pub open spec fn looks_like(levels: Seq<LevelView>, m: nat, n: nat) -> bool {
    let count = optional_count(levels);
    m < n && shapes_left(levels, way(m, count)) == shapes_left(levels, way(n, count))
}

/// The first two of so many ways to leave levels out that leave the same shapes.
pub open spec fn clash(levels: Seq<LevelView>, ways: nat) -> Option<(nat, nat)>
    decreases ways,
{
    if ways == 0 {
        None
    } else {
        let n = (ways - 1) as nat;
        match clash(levels, n) {
            Some(both) => Some(both),
            None => if exists|m: nat| looks_like(levels, m, n) {
                Some((choose|m: nat| looks_like(levels, m, n), n))
            } else {
                None
            },
        }
    }
}

/// Why a layout cannot be used, if it cannot.
pub open spec fn layout_fault(levels: Seq<LevelView>) -> Option<Seq<char>> {
    match names_fault(levels) {
        Some(why) => Some(why),
        None => {
            let count = optional_count(levels);
            match clash(levels, pow2(count)) {
                Some((m, n)) => Some(
                    joined(titles_apart(levels, way(n, count), way(m, count)), " and "@)
                        + " cannot be told apart when one is left out"@,
                ),
                None => None,
            }
        },
    }
}

/// The layout a text stands for, checked, or why it is none.
pub open spec fn layout_of(text: Seq<char>) -> Result<Seq<LevelView>, Seq<char>> {
    match levels_of(split(text, '/')) {
        Err(why) => Err(why),
        Ok(levels) => match layout_fault(levels) {
            Some(why) => Err(why),
            None => Ok(levels),
        },
    }
}

// ---- Ways to leave levels out ------------------------------------------------------------------

proof fn lemma_way(n: nat, count: nat)
    ensures
        way(n, count).len() == count,
        n < pow2(count) ==> number(way(n, count)) == n,
    decreases count,
{
    lemma2_to64();
    if count > 0 {
        lemma_pow2_unfold(count);
        lemma_way(n / 2, (count - 1) as nat);
        assert(way(n, count).skip(1) =~= way(n / 2, (count - 1) as nat));
    }
}

proof fn lemma_number(bits: Seq<bool>)
    ensures
        number(bits) < pow2(bits.len()),
        way(number(bits), bits.len()) == bits,
    decreases bits.len(),
{
    lemma2_to64();
    if bits.len() > 0 {
        lemma_pow2_unfold(bits.len());
        lemma_number(bits.skip(1));
        assert(way(number(bits), bits.len()) =~= seq![bits[0]] + bits.skip(1));
        assert(seq![bits[0]] + bits.skip(1) =~= bits);
    } else {
        assert(way(number(bits), bits.len()) =~= bits);
    }
}

/// The way with the next number, the one after the last being the first again.
spec fn after(bits: Seq<bool>) -> Seq<bool>
    decreases bits.len(),
{
    if bits.len() == 0 {
        bits
    } else if bits[0] {
        seq![false] + after(bits.skip(1))
    } else {
        seq![true] + bits.skip(1)
    }
}

proof fn lemma_after(bits: Seq<bool>)
    ensures
        after(bits).len() == bits.len(),
        number(bits) + 1 < pow2(bits.len()) ==> number(after(bits)) == number(bits) + 1,
    decreases bits.len(),
{
    lemma2_to64();
    if bits.len() > 0 {
        lemma_pow2_unfold(bits.len());
        lemma_after(bits.skip(1));
        assert(after(bits).skip(1) =~= if bits[0] {
            after(bits.skip(1))
        } else {
            bits.skip(1)
        });
    }
}

/// Goes on to the next way to leave levels out.
fn step(bits: &mut Vec<bool>)
    requires
        number(old(bits)@) + 1 < pow2(old(bits)@.len()),
    ensures
        final(bits)@.len() == old(bits)@.len(),
        final(bits)@ == way(number(old(bits)@) + 1, old(bits)@.len()),
{
    let ghost start = bits@;
    let mut i: usize = 0;
    assert(start.skip(0) =~= start);
    assert(start.take(0) + after(start.skip(0)) =~= after(start));
    while i < bits.len() && bits[i]
        invariant
            i <= bits@.len(),
            bits@.len() == start.len(),
            bits@.skip(i as int) == start.skip(i as int),
            bits@.take(i as int) + after(start.skip(i as int)) == after(start),
        decreases bits.len() - i,
    {
        let ghost rest = start.skip(i as int);
        assert(rest[0] == bits@.skip(i as int)[0]);
        assert(rest.skip(1) =~= start.skip(i + 1));
        let ghost taken = bits@.take(i as int);
        bits.set(i, false);
        assert(bits@.take(i + 1) =~= taken.push(false));
        assert(bits@.take(i + 1) + after(start.skip(i + 1)) =~= taken + after(rest));
        assert(bits@.skip(i + 1) =~= start.skip(i + 1)) by {
            assert(forall|k: int|
                i + 1 <= k < start.len() ==> bits@[k] == #[trigger] start.skip(i as int)[k - i]);
        }
        i += 1;
    }
    if i < bits.len() {
        let ghost rest = start.skip(i as int);
        assert(rest[0] == bits@.skip(i as int)[0]);
        let ghost taken = bits@.take(i as int);
        let ghost tail = bits@.skip(i as int);
        bits.set(i, true);
        assert(bits@ =~= taken + (seq![true] + tail.skip(1)));
    } else {
        assert(after(start.skip(i as int)) =~= Seq::<bool>::empty());
        assert(bits@ =~= bits@.take(i as int) + Seq::<bool>::empty());
    }
    proof {
        lemma_after(start);
        lemma_number(after(start));
    }
}

// ---- Layouts -----------------------------------------------------------------------------------

impl Layout {
    proof fn lemma_skip(&self, i: int)
        requires
            0 <= i < self.levels@.len(),
        ensures
            self@.skip(i).len() > 0,
            self@.skip(i)[0] == self.levels@[i]@,
            self@.skip(i).skip(1) == self@.skip(i + 1),
    {
        assert(self@.skip(i).skip(1) =~= self@.skip(i + 1));
    }

    fn optional_levels(&self) -> (count: usize)
        ensures
            count == optional_count(self@),
    {
        let mut count: usize = 0;
        let mut i: usize = 0;
        assert(self@.skip(0) =~= self@);
        while i < self.levels.len()
            invariant
                i <= self.levels@.len(),
                count <= i,
                count + optional_count(self@.skip(i as int)) == optional_count(self@),
            decreases self.levels.len() - i,
        {
            proof {
                self.lemma_skip(i as int);
            }
            if self.levels[i].optional {
                count += 1;
            }
            i += 1;
        }
        count
    }

    fn shapes(&self, left_out: &[bool]) -> (shapes: Vec<Shape>)
        requires
            left_out@.len() == optional_count(self@),
        ensures
            shapes@ == shapes_left(self@, left_out@),
    {
        let mut shapes: Vec<Shape> = Vec::new();
        let mut i: usize = 0;
        let mut at: usize = 0;
        proof {
            assert(self@.skip(0) =~= self@);
            assert(left_out@.skip(0) =~= left_out@);
            assert(shapes@ + shapes_left(self@, left_out@) =~= shapes_left(self@, left_out@));
        }
        while i < self.levels.len()
            invariant
                i <= self.levels@.len(),
                at <= left_out@.len(),
                left_out@.len() - at == optional_count(self@.skip(i as int)),
                shapes@ + shapes_left(self@.skip(i as int), left_out@.skip(at as int))
                    == shapes_left(self@, left_out@),
            decreases self.levels.len() - i,
        {
            let ghost before = shapes@;
            let ghost rest = self@.skip(i as int);
            let ghost bits = left_out@.skip(at as int);
            proof {
                self.lemma_skip(i as int);
            }
            let level = &self.levels[i];
            if level.optional {
                assert(bits[0] == left_out@[at as int]);
                assert(bits.skip(1) =~= left_out@.skip(at + 1));
                if !left_out[at] {
                    shapes.push(level.component.shape());
                    assert(shapes@ + shapes_left(rest.skip(1), bits.skip(1)) =~= before
                        + shapes_left(rest, bits));
                }
                at += 1;
            } else {
                shapes.push(level.component.shape());
                assert(shapes@ + shapes_left(rest.skip(1), bits) =~= before + shapes_left(
                    rest,
                    bits,
                ));
            }
            i += 1;
        }
        assert(shapes_left(self@.skip(i as int), left_out@.skip(at as int)) =~= Seq::<
            Shape,
        >::empty());
        assert(shapes@ =~= shapes@ + Seq::<Shape>::empty());
        shapes
    }

    fn titles_apart(&self, one: &[bool], other: &[bool]) -> (titles: Vec<String>)
        requires
            one@.len() == optional_count(self@),
            other@.len() == optional_count(self@),
        ensures
            views(titles@) == titles_apart(self@, one@, other@),
    {
        let mut titles: Vec<String> = Vec::new();
        let mut i: usize = 0;
        let mut at: usize = 0;
        let ghost whole = titles_apart(self@, one@, other@);
        proof {
            assert(self@.skip(0) =~= self@);
            assert(one@.skip(0) =~= one@);
            assert(other@.skip(0) =~= other@);
            assert(views(titles@) + whole =~= whole);
        }
        while i < self.levels.len()
            invariant
                i <= self.levels@.len(),
                at <= one@.len(),
                one@.len() == other@.len(),
                one@.len() - at == optional_count(self@.skip(i as int)),
                views(titles@) + titles_apart(
                    self@.skip(i as int),
                    one@.skip(at as int),
                    other@.skip(at as int),
                ) == whole,
            decreases self.levels.len() - i,
        {
            let ghost before = views(titles@);
            let ghost rest = self@.skip(i as int);
            let ghost a = one@.skip(at as int);
            let ghost b = other@.skip(at as int);
            proof {
                self.lemma_skip(i as int);
            }
            let level = &self.levels[i];
            if level.optional {
                assert(a[0] == one@[at as int]);
                assert(b[0] == other@[at as int]);
                assert(a.skip(1) =~= one@.skip(at + 1));
                assert(b.skip(1) =~= other@.skip(at + 1));
                if one[at] != other[at] {
                    titles.push(level.component.title());
                    assert(views(titles@) =~= before.push(level.component@.title()));
                    assert(views(titles@) + titles_apart(rest.skip(1), a.skip(1), b.skip(1))
                        =~= before + titles_apart(rest, a, b));
                }
                at += 1;
            }
            i += 1;
        }
        assert(views(titles@) =~= views(titles@) + titles_apart(
            self@.skip(i as int),
            one@.skip(at as int),
            other@.skip(at as int),
        ));
        titles
    }

    pub fn has(&self, component: &Component) -> (there: bool)
        ensures
            there == has_component(self@, component@),
    {
        self.has_before(self.levels.len(), component)
    }

    fn has_before(&self, end: usize, component: &Component) -> (there: bool)
        requires
            end <= self.levels@.len(),
        ensures
            there == has_component(self@.take(end as int), component@),
            end == self.levels@.len() ==> there == has_component(self@, component@),
    {
        proof {
            assert(self@.take(self.levels@.len() as int) =~= self@);
        }
        for i in 0..end
            invariant
                end <= self.levels@.len(),
                forall|j: int| 0 <= j < i ==> (#[trigger] self@.take(end as int)[j]).component
                    != component@,
        {
            if self.levels[i].component.is(component) {
                assert(self@.take(end as int)[i as int].component == component@);
                return true;
            }
            assert(self@.take(end as int)[i as int] == self.levels@[i as int]@);
        }
        false
    }

    fn names_fault(&self) -> (fault: Option<String>)
        ensures
            view_opt(fault) == names_fault(self@),
    {
        for i in 0..self.levels.len()
            invariant
                names_fault(self@.take(i as int)) is None,
        {
            let level = &self.levels[i];
            let ghost upto = self@.take(i + 1);
            proof {
                assert(upto.drop_last() =~= self@.take(i as int));
                assert(upto.last() == level@);
            }
            let mut fault: Option<String> = None;
            if let Component::Tag(root) = &level.component {
                let tidy = trim(root);
                if empty(&tidy) || holds_char(root, '/') || !same(&tidy, root) {
                    fault = Some(copy("a tag level needs the name of a top-level tag as its root"));
                }
            }
            if fault.is_none() && self.has_before(i, &level.component) {
                fault = Some(level.component.title().concat(" is there twice"));
            }
            assert(view_opt(fault) == names_fault(upto));
            if fault.is_some() {
                proof {
                    self.lemma_fault_stays(i + 1);
                }
                return fault;
            }
        }
        assert(self@.take(self@.len() as int) =~= self@);
        None
    }

    proof fn lemma_fault_stays(&self, i: int)
        requires
            0 <= i <= self@.len(),
            names_fault(self@.take(i)) is Some,
        ensures
            names_fault(self@) == names_fault(self@.take(i)),
        decreases self@.len() - i,
    {
        if i < self@.len() {
            assert(self@.take(i + 1).drop_last() =~= self@.take(i));
            self.lemma_fault_stays(i + 1);
        } else {
            assert(self@.take(i) =~= self@);
        }
    }

    fn clash(&self) -> (found: Option<(Vec<bool>, Vec<bool>)>)
        ensures
            match found {
                None => clash(self@, pow2(optional_count(self@))) is None,
                Some((a, b)) => exists|m: nat, n: nat|
                    #![trigger way(m, optional_count(self@)), way(n, optional_count(self@))]
                    clash(self@, pow2(optional_count(self@))) == Some((m, n)) && a@ == way(
                        m,
                        optional_count(self@),
                    ) && b@ == way(n, optional_count(self@)),
            },
    {
        let count: usize = self.optional_levels();
        let mut bits: Vec<bool> = Vec::new();
        for i in 0..count
            invariant
                bits@.len() == i,
                number(bits@) == 0,
        {
            let ghost before = bits@;
            bits.push(false);
            proof {
                lemma_number(before);
                lemma_zero(before);
            }
        }
        let ghost k = optional_count(self@);
        let ghost all = pow2(k);
        let ghost mut n: nat = 0;
        let mut seen: Vec<(Vec<Shape>, Vec<bool>)> = Vec::new();
        proof {
            lemma_pow2_pos(k);
            lemma_number(bits@);
        }
        loop
            invariant
                k == optional_count(self@),
                count == k,
                all == pow2(k),
                n < all,
                bits@.len() == k,
                bits@ == way(n, k),
                number(bits@) == n,
                clash(self@, n) is None,
                seen@.len() == n,
                forall|m: int|
                    0 <= m < n ==> (#[trigger] seen@[m]).1@ == way(m as nat, k) && seen@[m].0@
                        == shapes_left(self@, way(m as nat, k)),
            decreases all - n,
        {
            let shapes = self.shapes(&bits);
            let mut at: usize = 0;
            while at < seen.len()
                invariant
                    k == optional_count(self@),
                    at <= seen@.len(),
                    seen@.len() == n,
                    n < all,
                    all == pow2(k),
                    bits@ == way(n, k),
                    shapes@ == shapes_left(self@, way(n, k)),
                    clash(self@, n) is None,
                    forall|m: int|
                        0 <= m < n ==> (#[trigger] seen@[m]).1@ == way(m as nat, k)
                            && seen@[m].0@ == shapes_left(self@, way(m as nat, k)),
                    forall|m: nat| m < at ==> !looks_like(self@, m, n),
                decreases seen.len() - at,
            {
                if same_shapes(&seen[at].0, &shapes) {
                    proof {
                        assert(looks_like(self@, at as nat, n));
                        let m = choose|m: nat| looks_like(self@, m, n);
                        if m != at {
                            lemma_clash_once(self@, n, m, at as nat);
                        }
                        lemma_clash_stays(self@, n + 1, all);
                    }
                    let earlier = copy_bits(&seen[at].1);
                    return Some((earlier, bits));
                }
                assert(!looks_like(self@, at as nat, n)) by {
                    assert(seen@[at as int].1@ == way(at as nat, k));
                }
                at += 1;
            }
            assert(clash(self@, n + 1) is None) by {
                assert(forall|m: nat| looks_like(self@, m, n) ==> m < n);
            }
            if all_true(&bits) {
                proof {
                    lemma_all_true(bits@);
                }
                return None;
            }
            let done = copy_bits(&bits);
            proof {
                lemma_not_all_true(bits@);
                lemma_way(n + 1, k);
            }
            seen.push((shapes, done));
            step(&mut bits);
            proof {
                n = n + 1;
            }
        }
    }

    /// Why a layout cannot be used: a level twice, a tag without a root, or levels that could be
    /// read from one path in two ways.
    pub fn check(&self) -> (checked: Result<(), String>)
        ensures
            match checked {
                Ok(_) => layout_fault(self@) is None,
                Err(why) => layout_fault(self@) == Some(why@),
            },
    {
        if let Some(why) = self.names_fault() {
            return Err(why);
        }
        match self.clash() {
            None => Ok(()),
            Some((m, n)) => {
                proof {
                    let k = optional_count(self@);
                    let (a, b) = clash(self@, pow2(k))->0;
                    lemma_way(a, k);
                    lemma_way(b, k);
                }
                let both = self.titles_apart(&n, &m);
                Err(join(&both, " and ").concat(" cannot be told apart when one is left out"))
            },
        }
    }

    /// A layout from the text it is kept as, checked.
    pub fn read(text: &str) -> (layout: Result<Layout, String>)
        ensures
            match layout {
                Ok(layout) => layout_of(text@) == Ok::<Seq<LevelView>, Seq<char>>(layout@),
                Err(why) => layout_of(text@) == Err::<Seq<LevelView>, Seq<char>>(why@),
            },
    {
        let parts = split_at_each(text, '/');
        let mut layout = Layout { levels: Vec::new() };
        let ghost all = split(text@, '/');
        assert(layout@ =~= Seq::<LevelView>::empty());
        for i in 0..parts.len()
            invariant
                views(parts@) == all,
                all == split(text@, '/'),
                levels_of(all.take(i as int)) == Ok::<Seq<LevelView>, Seq<char>>(layout@),
        {
            let ghost before = layout@;
            assert(all.take(i + 1).drop_last() =~= all.take(i as int));
            assert(all.take(i + 1).last() == parts@[i as int]@);
            let part = trim(&parts[i]);
            if !empty(&part) {
                match read_level(&part) {
                    Ok(level) => {
                        layout.levels.push(level);
                        assert(layout@ =~= before.push(level@));
                    },
                    Err(why) => {
                        proof {
                            lemma_levels_fault_stays(all, i + 1);
                        }
                        return Err(why);
                    },
                }
            }
        }
        assert(all.take(all.len() as int) =~= all);
        match layout.check() {
            Ok(_) => Ok(layout),
            Err(why) => Err(why),
        }
    }

    /// The text it is kept as: `country/city?`, `year/tag:topics`, or nothing for events only.
    pub fn to_string(&self) -> (text: String)
        ensures
            text@ == written(self@),
    {
        let mut parts: Vec<String> = Vec::new();
        for i in 0..self.levels.len()
            invariant
                views(parts@) == written_levels(self@).take(i as int),
        {
            let ghost before = views(parts@);
            let level = &self.levels[i];
            let mut part = level.component.key();
            if level.optional {
                part.append("?");
            }
            parts.push(part);
            assert(views(parts@) =~= before.push(level@.written()));
            assert(views(parts@) =~= written_levels(self@).take(i + 1));
        }
        assert(written_levels(self@).take(self@.len() as int) =~= written_levels(self@));
        proof {
            reveal_strlit("/");
            assert("/"@ =~= seq!['/']);
        }
        join(&parts, "/")
    }
}

fn read_level(part: &str) -> (level: Result<Level, String>)
    requires
        part@.len() > 0,
    ensures
        match level {
            Ok(level) => level_of(part@) == Ok::<LevelView, Seq<char>>(level@),
            Err(why) => level_of(part@) == Err::<LevelView, Seq<char>>(why@),
        },
{
    let list = chars(part);
    let optional = list[list.len() - 1] == '?';
    let key = if optional {
        let key = crate::text::part(&list, 0, list.len() - 1);
        assert(key@ =~= part@.drop_last());
        key
    } else {
        copy(part)
    };
    match Component::from_key(&key) {
        Some(component) => Ok(Level { component, optional }),
        None => Err(key.concat(" is not a folder level")),
    }
}

proof fn lemma_levels_fault_stays(parts: Seq<Seq<char>>, i: int)
    requires
        0 <= i <= parts.len(),
        levels_of(parts.take(i)) is Err,
    ensures
        levels_of(parts) == levels_of(parts.take(i)),
    decreases parts.len() - i,
{
    if i < parts.len() {
        assert(parts.take(i + 1).drop_last() =~= parts.take(i));
        lemma_levels_fault_stays(parts, i + 1);
    } else {
        assert(parts.take(i) =~= parts);
    }
}

proof fn lemma_zero(bits: Seq<bool>)
    requires
        number(bits) == 0,
    ensures
        number(bits.push(false)) == 0,
    decreases bits.len(),
{
    if bits.len() > 0 {
        lemma_zero(bits.skip(1));
        assert(bits.push(false).skip(1) =~= bits.skip(1).push(false));
    } else {
        assert(bits.push(false).skip(1) =~= bits);
    }
}

proof fn lemma_all_true(bits: Seq<bool>)
    requires
        forall|i: int| 0 <= i < bits.len() ==> bits[i],
    ensures
        number(bits) + 1 == pow2(bits.len()),
    decreases bits.len(),
{
    lemma2_to64();
    if bits.len() > 0 {
        lemma_pow2_unfold(bits.len());
        lemma_all_true(bits.skip(1));
    }
}

proof fn lemma_not_all_true(bits: Seq<bool>)
    requires
        exists|i: int| 0 <= i < bits.len() && !bits[i],
    ensures
        number(bits) + 1 < pow2(bits.len()),
    decreases bits.len(),
{
    lemma2_to64();
    lemma_pow2_unfold(bits.len());
    lemma_number(bits.skip(1));
    if bits[0] {
        let i = choose|i: int| 0 <= i < bits.len() && !bits[i];
        assert(!bits.skip(1)[i - 1]);
        lemma_not_all_true(bits.skip(1));
    }
}

proof fn lemma_clash_once(levels: Seq<LevelView>, n: nat, a: nat, b: nat)
    requires
        clash(levels, n) is None,
        looks_like(levels, a, n),
        looks_like(levels, b, n),
    ensures
        a == b,
{
    if a < b {
        assert(looks_like(levels, a, b));
        lemma_no_clash(levels, n, a, b);
    } else if b < a {
        assert(looks_like(levels, b, a));
        lemma_no_clash(levels, n, b, a);
    }
}

/// Where there is no clash among so many ways, no two of them leave the same shapes.
proof fn lemma_no_clash(levels: Seq<LevelView>, ways: nat, m: nat, n: nat)
    requires
        clash(levels, ways) is None,
        n < ways,
    ensures
        !looks_like(levels, m, n),
    decreases ways,
{
    if n + 1 < ways {
        lemma_no_clash(levels, (ways - 1) as nat, m, n);
    }
}

proof fn lemma_clash_stays(levels: Seq<LevelView>, few: nat, many: nat)
    requires
        clash(levels, few) is Some,
        few <= many,
    ensures
        clash(levels, many) == clash(levels, few),
    decreases many,
{
    if few < many {
        lemma_clash_stays(levels, few, (many - 1) as nat);
    }
}

fn same_shapes(one: &[Shape], other: &[Shape]) -> (same: bool)
    ensures
        same == (one@ == other@),
{
    if one.len() != other.len() {
        return false;
    }
    for i in 0..one.len()
        invariant
            one@.len() == other@.len(),
            forall|j: int| 0 <= j < i ==> one@[j] == other@[j],
    {
        if one[i] != other[i] {
            return false;
        }
    }
    assert(one@ =~= other@);
    true
}

fn copy_bits(bits: &[bool]) -> (copied: Vec<bool>)
    ensures
        copied@ == bits@,
{
    let mut copied: Vec<bool> = Vec::new();
    for i in 0..bits.len()
        invariant
            copied@ == bits@.take(i as int),
    {
        copied.push(bits[i]);
        assert(copied@ =~= bits@.take(i + 1));
    }
    assert(bits@.take(bits@.len() as int) =~= bits@);
    copied
}

fn all_true(bits: &[bool]) -> (yes: bool)
    ensures
        yes == (forall|i: int| 0 <= i < bits@.len() ==> bits@[i]),
{
    for i in 0..bits.len()
        invariant
            forall|j: int| 0 <= j < i ==> bits@[j],
    {
        if !bits[i] {
            return false;
        }
    }
    true
}

/// The layouts offered by name. The first is the default.
pub const PRESETS: [(&'static str, &'static str); 6] = [
    ("Country / City / Event", "country/city?"),
    ("Country / Event", "country"),
    ("Year / Event", "year"),
    ("Year / Country / Event", "year/country"),
    ("Country / Year / Event", "country/year"),
    ("Event Only", ""),
];

/// The levels of the default layout: a country and, maybe, a city.
pub open spec fn default_levels() -> Seq<LevelView> {
    seq![
        LevelView { component: ComponentView::Country, optional: false },
        LevelView { component: ComponentView::City, optional: true },
    ]
}

impl Default for Layout {
    fn default() -> (layout: Layout)
        ensures
            layout@ == default_levels(),
    {
        let layout = Layout {
            levels: vec![
                Level { component: Component::Country, optional: false },
                Level { component: Component::City, optional: true },
            ],
        };
        assert(layout@ =~= default_levels());
        layout
    }
}

/// What the levels of a layout are called, and then the event.
pub open spec fn level_titles(levels: Seq<LevelView>) -> Seq<Seq<char>> {
    Seq::new(levels.len(), |i: int| levels[i].title()).push("Event"@)
}

/// What a level's folder is, from a date and the levels that were read.
pub open spec fn folder_known(
    component: ComponentView,
    date: Seq<char>,
    read: Seq<(ComponentView, Seq<char>)>,
) -> Option<Seq<char>> {
    match component {
        ComponentView::Year => head(date, 4),
        ComponentView::Month => head(date, 7),
        _ => folder_read(component, read),
    }
}

/// The folder the first level of this kind was read from.
pub open spec fn folder_read(
    component: ComponentView,
    read: Seq<(ComponentView, Seq<char>)>,
) -> Option<Seq<char>>
    decreases read.len(),
{
    if read.len() == 0 {
        None
    } else if read[0].0 == component {
        Some(read[0].1)
    } else {
        folder_read(component, read.skip(1))
    }
}

/// The folders an event would lie in, those not known yet in angle brackets.
pub open spec fn example_folders(
    levels: Seq<LevelView>,
    date: Seq<char>,
    read: Seq<(ComponentView, Seq<char>)>,
) -> Seq<Seq<char>> {
    Seq::new(
        levels.len(),
        |i: int|
            match folder_known(levels[i].component, date, read) {
                Some(folder) => folder,
                None => "<"@ + levels[i].component.title() + ">"@,
            },
    )
}

/// Where an event would lie in a layout.
pub open spec fn example_of(levels: Seq<LevelView>, placement: PlacementView) -> Seq<char> {
    let date = match placement.event_text {
        Some(date) => date,
        None => "0000-00-00"@,
    };
    let event = match placement.event_folder() {
        Some(folder) => folder,
        None => date,
    };
    joined(example_folders(levels, date, placement.levels).push(event), seq!['/'])
}

impl Layout {
    /// The preset this layout is, by its name.
    pub fn preset(&self) -> (name: Option<&'static str>)
        ensures
            match name {
                Some(name) => exists|i: int|
                    0 <= i < 6 && (#[trigger] PRESETS@[i]).1@ == written(self@) && PRESETS@[i].0@
                        == name@ && forall|j: int|
                        0 <= j < i ==> (#[trigger] PRESETS@[j]).1@ != written(self@),
                None => forall|i: int| 0 <= i < 6 ==> (#[trigger] PRESETS@[i]).1@ != written(self@),
            },
    {
        let text = self.to_string();
        let presets = PRESETS;
        for i in 0..6
            invariant
                presets == PRESETS,
                text@ == written(self@),
                forall|j: int| 0 <= j < i ==> (#[trigger] PRESETS@[j]).1@ != written(self@),
        {
            if same(presets[i].1, &text) {
                assert(PRESETS@[i as int].1@ == written(self@));
                return Some(presets[i].0);
            }
        }
        None
    }

    /// `Country / City / Event`, the optional levels in brackets.
    pub fn title(&self) -> (title: String)
        ensures
            title@ == joined(level_titles(self@), " / "@),
    {
        let mut parts: Vec<String> = Vec::new();
        for i in 0..self.levels.len()
            invariant
                views(parts@) == level_titles(self@).take(i as int),
        {
            let ghost before = views(parts@);
            let level = &self.levels[i];
            let title = level.component.title();
            let part = if level.optional {
                copy("(").concat(&title).concat(")")
            } else {
                title
            };
            parts.push(part);
            assert(views(parts@) =~= before.push(level@.title()));
            assert(views(parts@) =~= level_titles(self@).take(i + 1));
        }
        let ghost before = views(parts@);
        parts.push(copy("Event"));
        assert(views(parts@) =~= before.push("Event"@));
        assert(views(parts@) =~= level_titles(self@));
        join(&parts, " / ")
    }

    /// Where an event would lie in this layout, from what its folders say now: the levels it
    /// cannot know yet in angle brackets, `Germany/<Region>/2019-07-13 Party`.
    pub fn example(&self, placement: &Placement) -> (path: String)
        ensures
            path@ == example_of(self@, placement@),
    {
        let date = match &placement.event_text {
            Some(date) => date.clone(),
            None => copy("0000-00-00"),
        };
        let ghost all = example_folders(self@, date@, placement@.levels);
        let mut folders: Vec<String> = Vec::new();
        for i in 0..self.levels.len()
            invariant
                all == example_folders(self@, date@, placement@.levels),
                views(folders@) == all.take(i as int),
        {
            let ghost before = views(folders@);
            let level = &self.levels[i];
            let known = match &level.component {
                Component::Year => first_bytes(&date, 4),
                Component::Month => first_bytes(&date, 7),
                component => placement.folder_of(component),
            };
            let folder = match known {
                Some(folder) => folder,
                None => copy("<").concat(&level.component.title()).concat(">"),
            };
            folders.push(folder);
            assert(views(folders@) =~= before.push(folder@));
            assert(views(folders@) =~= all.take(i + 1));
        }
        let event = match placement.event_folder() {
            Some(folder) => folder,
            None => date.clone(),
        };
        let ghost before = views(folders@);
        folders.push(event);
        proof {
            assert(all.take(self@.len() as int) =~= all);
            assert(views(folders@) =~= before.push(event@));
            reveal_strlit("/");
            assert("/"@ =~= seq!['/']);
        }
        join(&folders, "/")
    }

    /// The folders above an event read as this layout's levels, or `None` when they are not.
    /// `event` is the date part of the event folder the year and month levels must agree with.
    fn place(&self, folders: &[String], event: &str) -> (found: Option<Vec<(Component, String)>>)
        ensures
            match found {
                Some(found) => place(self@, views(folders@), event@) == Some(pairs(found@)),
                None => place(self@, views(folders@), event@) is None,
            },
    {
        let mut found: Vec<(Component, String)> = Vec::new();
        proof {
            assert(self@.skip(0) =~= self@);
            assert(views(folders@).skip(0) =~= views(folders@));
        }
        if self.walk(0, folders, 0, event, &mut found) {
            assert(pairs(found@) =~= place(self@, views(folders@), event@)->0);
            Some(found)
        } else {
            None
        }
    }

    fn walk(
        &self,
        at: usize,
        folders: &[String],
        from: usize,
        event: &str,
        found: &mut Vec<(Component, String)>,
    ) -> (fits: bool)
        requires
            at <= self.levels@.len(),
            from <= folders@.len(),
        ensures
            fits == place(
                self@.skip(at as int),
                views(folders@).skip(from as int),
                event@,
            ) is Some,
            fits ==> pairs(final(found)@) == pairs(old(found)@) + place(
                self@.skip(at as int),
                views(folders@).skip(from as int),
                event@,
            )->0,
            !fits ==> final(found)@ == old(found)@,
        decreases self.levels@.len() - at,
    {
        let ghost levels = self@.skip(at as int);
        let ghost rest = views(folders@).skip(from as int);
        if at == self.levels.len() {
            assert(pairs(found@) =~= pairs(found@) + Seq::<(ComponentView, Seq<char>)>::empty());
            return from == folders.len();
        }
        proof {
            self.lemma_skip(at as int);
        }
        let level = &self.levels[at];
        if from < folders.len() {
            let folder = &folders[from];
            assert(rest[0] == folder@);
            assert(rest.skip(1) =~= views(folders@).skip(from + 1));
            if Shape::of(folder) == level.component.shape() && agrees(
                &level.component,
                folder,
                event,
            ) {
                let ghost before = found@;
                found.push((level.component.copy(), folder.clone()));
                let ghost more = found@;
                if self.walk(at + 1, folders, from + 1, event, found) {
                    assert(pairs(more) =~= pairs(before).push((level.component@, folder@)));
                    assert(pairs(found@) =~= pairs(before) + place(levels, rest, event@)->0);
                    return true;
                }
                found.pop();
                assert(found@ =~= before);
            }
        }
        level.optional && self.walk(at + 1, folders, from, event, found)
    }

    /// Whether folders holding no event are a start of this layout that only ever needs more
    /// levels to come: `China/` under `Country/City`, `2019/` under `Year/Country`.
    fn holds_loose(&self, folders: &[String]) -> (found: Option<Vec<(Component, String)>>)
        ensures
            match found {
                Some(found) => loose(self@, views(folders@)) == Some(pairs(found@)),
                None => loose(self@, views(folders@)) is None,
            },
    {
        let mut needed: Vec<Component> = Vec::new();
        for i in 0..self.levels.len()
            invariant
                components(needed@) == required(self@.take(i as int)),
        {
            let ghost before = components(needed@);
            assert(self@.take(i + 1).drop_last() =~= self@.take(i as int));
            if !self.levels[i].optional {
                needed.push(self.levels[i].component.copy());
                assert(components(needed@) =~= before.push(self@[i as int].component));
            }
        }
        assert(self@.take(self@.len() as int) =~= self@);
        if folders.len() == 0 || folders.len() > needed.len() {
            return None;
        }
        let mut found: Vec<(Component, String)> = Vec::new();
        for i in 0..folders.len()
            invariant
                components(needed@) == required(self@),
                0 < folders@.len() <= needed@.len(),
                forall|j: int|
                    0 <= j < i ==> shape_of(#[trigger] views(folders@)[j]) == required(
                        self@,
                    )[j].shape(),
                pairs(found@) == zipped(required(self@), views(folders@)).take(i as int),
        {
            let ghost before = pairs(found@);
            assert(components(needed@)[i as int] == needed@[i as int]@);
            if Shape::of(&folders[i]) != needed[i].shape() {
                assert(shape_of(views(folders@)[i as int]) != required(self@)[i as int].shape());
                return None;
            }
            found.push((needed[i].copy(), folders[i].clone()));
            assert(pairs(found@) =~= before.push((needed@[i as int]@, folders@[i as int]@)));
            assert(pairs(found@) =~= zipped(required(self@), views(folders@)).take(i + 1));
        }
        assert(pairs(found@) =~= zipped(required(self@), views(folders@)));
        Some(found)
    }
}

/// What a list of levels and the folders they were read from holds.
pub open spec fn pairs(found: Seq<(Component, String)>) -> Seq<(ComponentView, Seq<char>)> {
    Seq::new(found.len(), |i: int| (found[i].0@, found[i].1@))
}

pub open spec fn components(list: Seq<Component>) -> Seq<ComponentView> {
    Seq::new(list.len(), |i: int| list[i]@)
}

/// A year or month level has to say the event's own year or month.
pub open spec fn agreeing(component: ComponentView, folder: Seq<char>, event: Seq<char>) -> bool {
    match component {
        ComponentView::Year => head(event, 4) == Some(folder),
        ComponentView::Month => head(event, 7) == Some(folder),
        _ => true,
    }
}

fn agrees(component: &Component, folder: &str, event: &str) -> (yes: bool)
    ensures
        yes == agreeing(component@, folder@, event@),
{
    match component {
        Component::Year => match first_bytes(event, 4) {
            Some(start) => same(&start, folder),
            None => false,
        },
        Component::Month => match first_bytes(event, 7) {
            Some(start) => same(&start, folder),
            None => false,
        },
        _ => true,
    }
}

/// The levels the folders above an event are: each folder is the next level, where it looks like
/// it, and an optional level may be passed over.
pub open spec fn place(levels: Seq<LevelView>, folders: Seq<Seq<char>>, event: Seq<char>) -> Option<
    Seq<(ComponentView, Seq<char>)>,
>
    decreases levels.len(),
{
    if levels.len() == 0 {
        if folders.len() == 0 {
            Some(Seq::empty())
        } else {
            None
        }
    } else {
        let component = levels[0].component;
        let taken = if folders.len() > 0 && shape_of(folders[0]) == component.shape() && agreeing(
            component,
            folders[0],
            event,
        ) {
            place(levels.skip(1), folders.skip(1), event)
        } else {
            None
        };
        match taken {
            Some(rest) => Some(seq![(component, folders[0])] + rest),
            None => if levels[0].optional {
                place(levels.skip(1), folders, event)
            } else {
                None
            },
        }
    }
}

/// The levels that cannot be left out.
pub open spec fn required(levels: Seq<LevelView>) -> Seq<ComponentView>
    decreases levels.len(),
{
    if levels.len() == 0 {
        Seq::empty()
    } else if levels.last().optional {
        required(levels.drop_last())
    } else {
        required(levels.drop_last()).push(levels.last().component)
    }
}

/// Each folder with the level it is.
pub open spec fn zipped(levels: Seq<ComponentView>, folders: Seq<Seq<char>>) -> Seq<
    (ComponentView, Seq<char>),
> {
    Seq::new(folders.len(), |i: int| (levels[i], folders[i]))
}

/// The levels that folders without an event are: the first of the required ones.
pub open spec fn loose(levels: Seq<LevelView>, folders: Seq<Seq<char>>) -> Option<
    Seq<(ComponentView, Seq<char>)>,
> {
    let needed = required(levels);
    if 0 < folders.len() <= needed.len() && forall|i: int|
        0 <= i < folders.len() ==> shape_of(#[trigger] folders[i]) == needed[i].shape() {
        Some(zipped(needed, folders))
    } else {
        None
    }
}

/// How well a path fits the layout.
#[derive(Debug, Clone, Copy, PartialEq, Eq, Structural)]
pub enum Fit {
    /// An event with a date under the layout's levels, maybe in sub-folders.
    InLayout,
    /// An event with a date, but the folders above it are not the layout's.
    OffLayout,
    /// In a folder of the layout's levels, without an event.
    LooseInFolder,
    /// Directly in the library root.
    LooseAtRoot,
    /// There is a folder where the event should be, but its name carries no date.
    EventWithoutDate,
}

impl Default for Fit {
    fn default() -> (fit: Fit)
        ensures
            fit == Fit::LooseAtRoot,
    {
        Fit::LooseAtRoot
    }
}

impl Fit {
    pub open spec fn words(self) -> Seq<char> {
        match self {
            Fit::InLayout => "in the layout"@,
            Fit::OffLayout => "off the layout"@,
            Fit::LooseInFolder => "loose in a folder"@,
            Fit::LooseAtRoot => "loose at root"@,
            Fit::EventWithoutDate => "event without a date"@,
        }
    }

    pub fn as_str(self) -> (words: &'static str)
        ensures
            words@ == self.words(),
    {
        match self {
            Fit::InLayout => "in the layout",
            Fit::OffLayout => "off the layout",
            Fit::LooseInFolder => "loose in a folder",
            Fit::LooseAtRoot => "loose at root",
            Fit::EventWithoutDate => "event without a date",
        }
    }
}

#[derive(Debug, Clone, PartialEq, Eq)]
pub struct Placement {
    pub country: Option<String>,
    pub region: Option<String>,
    pub city: Option<String>,
    /// The tag level's folder, when the layout has one.
    pub tag: Option<String>,
    pub event_text: Option<String>,
    pub event_year: Option<i64>,
    pub event_month: Option<i64>,
    pub event_day: Option<i64>,
    pub event_name: Option<String>,
    pub sub_path: Option<String>,
    /// The event's folder inside the library, `<levels>/YYYY-MM-DD Event`.
    pub event_dir: Option<String>,
    /// The folders above the event, or above a loose photo, as they are.
    pub above: Vec<String>,
    /// The layout's levels those folders were read as, when they were.
    pub levels: Vec<(Component, String)>,
    pub fit: Fit,
}

/// What a [`Placement`] says, its texts as characters.
#[verifier::ext_equal]
pub struct PlacementView {
    pub country: Option<Seq<char>>,
    pub region: Option<Seq<char>>,
    pub city: Option<Seq<char>>,
    pub tag: Option<Seq<char>>,
    pub event_text: Option<Seq<char>>,
    pub event_year: Option<int>,
    pub event_month: Option<int>,
    pub event_day: Option<int>,
    pub event_name: Option<Seq<char>>,
    pub sub_path: Option<Seq<char>>,
    pub event_dir: Option<Seq<char>>,
    pub above: Seq<Seq<char>>,
    pub levels: Seq<(ComponentView, Seq<char>)>,
    pub fit: Fit,
}

pub open spec fn int_opt(n: Option<i64>) -> Option<int> {
    match n {
        Some(n) => Some(n as int),
        None => None,
    }
}

impl View for Placement {
    type V = PlacementView;

    open spec fn view(&self) -> PlacementView {
        PlacementView {
            country: view_opt(self.country),
            region: view_opt(self.region),
            city: view_opt(self.city),
            tag: view_opt(self.tag),
            event_text: view_opt(self.event_text),
            event_year: int_opt(self.event_year),
            event_month: int_opt(self.event_month),
            event_day: int_opt(self.event_day),
            event_name: view_opt(self.event_name),
            sub_path: view_opt(self.sub_path),
            event_dir: view_opt(self.event_dir),
            above: views(self.above@),
            levels: pairs(self.levels@),
            fit: self.fit,
        }
    }
}

/// Nothing but a photo at the root of the library.
pub open spec fn nowhere() -> PlacementView {
    PlacementView {
        country: None,
        region: None,
        city: None,
        tag: None,
        event_text: None,
        event_year: None,
        event_month: None,
        event_day: None,
        event_name: None,
        sub_path: None,
        event_dir: None,
        above: Seq::empty(),
        levels: Seq::empty(),
        fit: Fit::LooseAtRoot,
    }
}

impl Default for Placement {
    fn default() -> (placement: Placement)
        ensures
            placement@ == nowhere(),
    {
        let placement = Placement {
            country: None,
            region: None,
            city: None,
            tag: None,
            event_text: None,
            event_year: None,
            event_month: None,
            event_day: None,
            event_name: None,
            sub_path: None,
            event_dir: None,
            above: Vec::new(),
            levels: Vec::new(),
            fit: Fit::LooseAtRoot,
        };
        assert(placement@ =~= nowhere());
        placement
    }
}

/// What the name of an event folder says.
pub struct EventView {
    pub text: Seq<char>,
    pub year: Option<int>,
    pub month: Option<int>,
    pub day: Option<int>,
    pub name: Option<Seq<char>>,
}

struct Event {
    text: String,
    year: Option<i64>,
    month: Option<i64>,
    day: Option<i64>,
    name: Option<String>,
}

impl Event {
    spec fn says(self) -> EventView {
        EventView {
            text: self.text@,
            year: int_opt(self.year),
            month: int_opt(self.month),
            day: int_opt(self.day),
            name: view_opt(self.name),
        }
    }
}

/// The number in one part of a date: digits, maybe with a plus sign before them.
pub open spec fn date_number(part: Seq<char>) -> Option<nat> {
    if part.len() > 0 && part[0] == '+' {
        natural(part.skip(1), 9999)
    } else {
        natural(part, 9999)
    }
}

/// A part of a date that is not zeroed out.
pub open spec fn filled_in(n: nat) -> Option<int> {
    if n > 0 {
        Some(n as int)
    } else {
        None
    }
}

/// `YYYY-MM-DD Name`, where any part of the date may be zeroed out.
pub open spec fn event_of(folder: Seq<char>) -> Option<EventView> {
    if folder.len() < 10 || (folder.len() > 10 && folder[10] != ' ') || folder[4] != '-'
        || folder[7] != '-' {
        None
    } else {
        let name = trimmed(folder.skip(10));
        match (
            date_number(folder.subrange(0, 4)),
            date_number(folder.subrange(5, 7)),
            date_number(folder.subrange(8, 10)),
        ) {
            (Some(year), Some(month), Some(day)) => Some(
                EventView {
                    text: folder.take(10),
                    year: filled_in(year),
                    month: filled_in(month),
                    day: filled_in(day),
                    name: if name.len() > 0 {
                        Some(name)
                    } else {
                        None
                    },
                },
            ),
            _ => None,
        }
    }
}

fn read_part(list: &[char], from: usize, to: usize) -> (number: Option<i64>)
    requires
        from < to <= list@.len(),
    ensures
        match number {
            Some(n) => n >= 0 && date_number(list@.subrange(from as int, to as int)) == Some(
                n as nat,
            ),
            None => date_number(list@.subrange(from as int, to as int)) is None,
        },
{
    let start: usize = if list[from] == '+' {
        from + 1
    } else {
        from
    };
    let digits = chars(&part(list, start, to));
    assert(list@.subrange(from as int, to as int).skip(1) =~= list@.subrange(from + 1, to as int));
    match read_natural(&digits, 9999) {
        Some(n) => Some(n as i64),
        None => None,
    }
}

fn unless_zero(n: i64) -> (number: Option<i64>)
    requires
        n >= 0,
    ensures
        int_opt(number) == filled_in(n as nat),
{
    if n > 0 {
        Some(n)
    } else {
        None
    }
}

/// Whether a folder's name begins with a date, as that of an event does.
pub fn is_event(folder: &str) -> (yes: bool)
    ensures
        yes == (event_of(folder@) is Some),
{
    parse_event(folder).is_some()
}

fn parse_event(folder: &str) -> (event: Option<Event>)
    ensures
        match event {
            Some(event) => event_of(folder@) == Some(event.says()),
            None => event_of(folder@) is None,
        },
{
    let list = chars(folder);
    if list.len() < 10 || (list.len() > 10 && list[10] != ' ') || list[4] != '-' || list[7] != '-' {
        return None;
    }
    match (read_part(&list, 0, 4), read_part(&list, 5, 7), read_part(&list, 8, 10)) {
        (Some(year), Some(month), Some(day)) => {
            let date = part(&list, 0, 10);
            let rest = part(&list, 10, list.len());
            let name = trim(&rest);
            assert(date@ =~= folder@.take(10));
            assert(rest@ =~= folder@.skip(10));
            Some(
                Event {
                    text: date,
                    year: unless_zero(year),
                    month: unless_zero(month),
                    day: unless_zero(day),
                    name: if empty(&name) {
                        None
                    } else {
                        Some(name)
                    },
                },
            )
        },
        _ => None,
    }
}

/// The parts of a path, the empty ones left out.
pub open spec fn filled(parts: Seq<Seq<char>>) -> Seq<Seq<char>>
    decreases parts.len(),
{
    if parts.len() == 0 {
        Seq::empty()
    } else if parts.last().len() == 0 {
        filled(parts.drop_last())
    } else {
        filled(parts.drop_last()).push(parts.last())
    }
}

/// The place of the first folder that carries a date, or the number of folders.
pub open spec fn event_at(folders: Seq<Seq<char>>) -> int
    decreases folders.len(),
{
    if folders.len() == 0 || event_of(folders[0]) is Some {
        0
    } else {
        1 + event_at(folders.skip(1))
    }
}

/// A placement with the levels its folders were read as, each kind in its own place.
pub open spec fn with_levels(
    placement: PlacementView,
    levels: Seq<(ComponentView, Seq<char>)>,
) -> PlacementView
    decreases levels.len(),
{
    let so_far = if levels.len() == 0 {
        placement
    } else {
        let before = with_levels(placement, levels.drop_last());
        let folder = Some(levels.last().1);
        match levels.last().0 {
            ComponentView::Country => PlacementView { country: folder, ..before },
            ComponentView::Region => PlacementView { region: folder, ..before },
            ComponentView::City => PlacementView { city: folder, ..before },
            ComponentView::Tag(_) => PlacementView { tag: folder, ..before },
            _ => before,
        }
    };
    PlacementView { levels, ..so_far }
}

/// What the folders of a path say of the photo in them.
pub open spec fn placement_in(folders: Seq<Seq<char>>, layout: Seq<LevelView>) -> PlacementView {
    let at = event_at(folders);
    if folders.len() == 0 {
        nowhere()
    } else if at == folders.len() {
        match loose(layout, folders) {
            Some(levels) => with_levels(
                PlacementView { above: folders, fit: Fit::LooseInFolder, ..nowhere() },
                levels,
            ),
            None => {
                let sub = joined(folders.skip(1), seq!['/']);
                with_levels(
                    PlacementView {
                        sub_path: if sub.len() > 0 {
                            Some(sub)
                        } else {
                            None
                        },
                        above: folders,
                        fit: Fit::EventWithoutDate,
                        ..nowhere()
                    },
                    match loose(layout, folders.take(1)) {
                        Some(levels) => levels,
                        None => Seq::empty(),
                    },
                )
            },
        }
    } else {
        let event = event_of(folders[at])->0;
        let sub = folders.skip(at + 1);
        let levels = place(layout, folders.take(at), event.text);
        with_levels(
            PlacementView {
                event_text: Some(event.text),
                event_year: event.year,
                event_month: event.month,
                event_day: event.day,
                event_name: event.name,
                sub_path: if sub.len() > 0 {
                    Some(joined(sub, seq!['/']))
                } else {
                    None
                },
                event_dir: Some(joined(folders.take(at + 1), seq!['/'])),
                above: folders.take(at),
                fit: if levels is Some {
                    Fit::InLayout
                } else {
                    Fit::OffLayout
                },
                ..nowhere()
            },
            match levels {
                Some(levels) => levels,
                None => Seq::empty(),
            },
        )
    }
}

/// The folders of a path: its parts but the last, which is the file.
pub open spec fn folders_of(path: Seq<char>) -> Seq<Seq<char>> {
    let parts = filled(split(path, '/'));
    if parts.len() > 0 {
        parts.drop_last()
    } else {
        parts
    }
}

/// What the path of a photo inside the library says.
pub open spec fn placement_of(path: Seq<char>, layout: Seq<LevelView>) -> PlacementView {
    placement_in(folders_of(path), layout)
}

impl PlacementView {
    /// The folder name of the event itself.
    pub open spec fn event_folder(self) -> Option<Seq<char>> {
        match (self.event_text, self.event_name) {
            (Some(date), Some(name)) => Some(date + " "@ + name),
            (Some(date), None) => Some(date),
            (None, _) => None,
        }
    }
}

fn path_folders(path: &str) -> (folders: Vec<String>)
    ensures
        views(folders@) == folders_of(path@),
{
    let parts = split_at_each(path, '/');
    let mut full: Vec<String> = Vec::new();
    for i in 0..parts.len()
        invariant
            views(parts@) == split(path@, '/'),
            views(full@) == filled(views(parts@).take(i as int)),
    {
        let ghost before = views(full@);
        assert(views(parts@).take(i + 1).drop_last() =~= views(parts@).take(i as int));
        assert(views(parts@).take(i + 1).last() == parts@[i as int]@);
        if !empty(&parts[i]) {
            full.push(parts[i].clone());
            assert(views(full@) =~= before.push(parts@[i as int]@));
        }
    }
    assert(views(parts@).take(parts@.len() as int) =~= views(parts@));
    if full.len() > 0 {
        let ghost before = views(full@);
        full.pop();
        assert(views(full@) =~= before.drop_last());
    }
    full
}

proof fn lemma_event_at(folders: Seq<Seq<char>>, n: int)
    requires
        0 <= n <= folders.len(),
        forall|i: int| 0 <= i < n ==> event_of(#[trigger] folders[i]) is None,
        n < folders.len() ==> event_of(folders[n]) is Some,
    ensures
        event_at(folders) == n,
    decreases n,
{
    if n > 0 {
        assert(event_of(folders[0]) is None);
        assert forall|i: int| 0 <= i < n - 1 implies event_of(
            #[trigger] folders.skip(1)[i],
        ) is None by {
            assert(folders.skip(1)[i] == folders[i + 1]);
        }
        lemma_event_at(folders.skip(1), n - 1);
    }
}

impl Placement {
    pub fn parse(rel_path: &str, layout: &Layout) -> (placement: Placement)
        ensures
            placement@ == placement_of(rel_path@, layout@),
    {
        let folders = path_folders(rel_path);
        let ghost all = views(folders@);
        proof {
            reveal_strlit("/");
            assert("/"@ =~= seq!['/']);
        }
        if folders.len() == 0 {
            return Placement::default();
        }
        let mut at: usize = 0;
        while at < folders.len()
            invariant
                at <= folders@.len(),
                0 < folders@.len(),
                all == views(folders@),
                all == folders_of(rel_path@),
                "/"@ == seq!['/'],
                forall|i: int| 0 <= i < at ==> event_of(#[trigger] all[i]) is None,
            decreases folders.len() - at,
        {
            if let Some(event) = parse_event(&folders[at]) {
                proof {
                    assert(event_of(all[at as int]) is Some);
                    lemma_event_at(all, at as int);
                }
                let above = sub_list(&folders, 0, at);
                let sub = sub_list(&folders, at + 1, folders.len());
                let upto = sub_list(&folders, 0, at + 1);
                assert(views(above@) =~= all.take(at as int));
                assert(views(sub@) =~= all.skip(at + 1));
                assert(views(upto@) =~= all.take(at + 1));
                let found = layout.place(&above, &event.text);
                let fit = match found {
                    Some(_) => Fit::InLayout,
                    None => Fit::OffLayout,
                };
                let levels = match found {
                    Some(levels) => levels,
                    None => Vec::new(),
                };
                let sub_path = if sub.len() > 0 {
                    Some(join(&sub, "/"))
                } else {
                    None
                };
                let bare = Placement {
                    country: None,
                    region: None,
                    city: None,
                    tag: None,
                    event_text: Some(event.text),
                    event_year: event.year,
                    event_month: event.month,
                    event_day: event.day,
                    event_name: event.name,
                    sub_path,
                    event_dir: Some(join(&upto, "/")),
                    above,
                    levels: Vec::new(),
                    fit,
                };
                proof {
                    let said = event_of(all[at as int])->0;
                    assert(said == event.says());
                    assert(bare@ =~= (PlacementView {
                        event_text: Some(said.text),
                        event_year: said.year,
                        event_month: said.month,
                        event_day: said.day,
                        event_name: said.name,
                        sub_path: bare@.sub_path,
                        event_dir: bare@.event_dir,
                        above: all.take(at as int),
                        fit,
                        ..nowhere()
                    }));
                    assert(levels@.len() == 0 ==> pairs(levels@) =~= Seq::empty());
                }
                return bare.with(levels);
            }
            at += 1;
        }
        proof {
            lemma_event_at(all, at as int);
        }
        let ghost above = all;
        match layout.holds_loose(&folders) {
            Some(levels) => {
                let mut bare = Placement::default();
                bare.above = folders;
                bare.fit = Fit::LooseInFolder;
                assert(bare@ =~= (PlacementView {
                    above: all,
                    fit: Fit::LooseInFolder,
                    ..nowhere()
                }));
                bare.with(levels)
            },
            None => {
                let first = sub_list(&folders, 0, 1);
                let rest = sub_list(&folders, 1, folders.len());
                assert(views(first@) =~= all.take(1));
                assert(views(rest@) =~= all.skip(1));
                let levels = match layout.holds_loose(&first) {
                    Some(levels) => levels,
                    None => Vec::new(),
                };
                assert(levels@.len() == 0 ==> pairs(levels@) =~= Seq::empty());
                let sub = join(&rest, "/");
                let mut bare = Placement::default();
                bare.above = folders;
                bare.fit = Fit::EventWithoutDate;
                bare.sub_path = if empty(&sub) {
                    None
                } else {
                    Some(sub)
                };
                assert(bare@ =~= (PlacementView {
                    sub_path: bare@.sub_path,
                    above: all,
                    fit: Fit::EventWithoutDate,
                    ..nowhere()
                }));
                bare.with(levels)
            },
        }
    }

    /// What an event folder alone says: `Country/City/2019-07-13 Party`.
    pub fn of_folder(event_dir: &str, layout: &Layout) -> (placement: Placement)
        ensures
            placement@ == placement_of(event_dir@ + "/-"@, layout@),
    {
        let path = copy(event_dir).concat("/-");
        Placement::parse(&path, layout)
    }

    fn with(self, levels: Vec<(Component, String)>) -> (placed: Placement)
        requires
            self.levels@.len() == 0,
        ensures
            placed@ == with_levels(self@, pairs(levels@)),
    {
        let ghost start = self@;
        let mut placed = self;
        assert(pairs(placed.levels@) =~= pairs(levels@).take(0));
        for i in 0..levels.len()
            invariant
                placed.levels@.len() == 0,
                (PlacementView { levels: pairs(levels@).take(i as int), ..placed@ })
                    == with_levels(start, pairs(levels@).take(i as int)),
        {
            let ghost upto = pairs(levels@).take(i + 1);
            let ghost before = placed@;
            assert(upto.drop_last() =~= pairs(levels@).take(i as int));
            assert(upto.last() == pairs(levels@)[i as int]);
            let folder = Some(levels[i].1.clone());
            match &levels[i].0 {
                Component::Country => placed.country = folder,
                Component::Region => placed.region = folder,
                Component::City => placed.city = folder,
                Component::Tag(_) => placed.tag = folder,
                _ => {},
            }
            assert((PlacementView { levels: upto, ..placed@ }) =~= with_levels(start, upto));
        }
        assert(pairs(levels@).take(levels@.len() as int) =~= pairs(levels@));
        placed.levels = levels;
        assert(placed@ =~= with_levels(start, pairs(levels@)));
        placed
    }

    fn folder_of(&self, component: &Component) -> (folder: Option<String>)
        ensures
            view_opt(folder) == folder_read(component@, self@.levels),
    {
        let mut i: usize = 0;
        assert(self@.levels.skip(0) =~= self@.levels);
        while i < self.levels.len()
            invariant
                i <= self.levels@.len(),
                folder_read(component@, self@.levels) == folder_read(
                    component@,
                    self@.levels.skip(i as int),
                ),
            decreases self.levels.len() - i,
        {
            assert(self@.levels.skip(i as int)[0] == self@.levels[i as int]);
            assert(self@.levels.skip(i as int).skip(1) =~= self@.levels.skip(i + 1));
            if self.levels[i].0.is(component) {
                return Some(self.levels[i].1.clone());
            }
            i += 1;
        }
        None
    }

    /// In the layout, with every level it has - no optional one left out.
    pub fn complete(&self, layout: &Layout) -> (yes: bool)
        ensures
            yes == (self@.fit == Fit::InLayout && self@.levels.len() == layout@.len()),
    {
        self.fits() && self.levels.len() == layout.levels.len()
    }

    pub fn fits(&self) -> (yes: bool)
        ensures
            yes == (self@.fit == Fit::InLayout),
    {
        self.fit == Fit::InLayout
    }

    /// The folder name of the event itself: `2019-07-13 Party`.
    pub fn event_folder(&self) -> (folder: Option<String>)
        ensures
            view_opt(folder) == self@.event_folder(),
    {
        match &self.event_text {
            None => None,
            Some(date) => match &self.event_name {
                Some(name) => Some(date.clone().concat(" ").concat(name)),
                None => Some(date.clone()),
            },
        }
    }
}

// ---- What holds of every layout ----------------------------------------------------------------

/// The shapes of these folders.
pub open spec fn shapes_of(folders: Seq<Seq<char>>) -> Seq<Shape> {
    Seq::new(folders.len(), |i: int| shape_of(folders[i]))
}

/// Whether folders look like the levels that are there when those marked are left out.
pub open spec fn readable(levels: Seq<LevelView>, left_out: Seq<bool>, folders: Seq<Seq<char>>) -> bool {
    left_out.len() == optional_count(levels) && shapes_of(folders) == shapes_left(levels, left_out)
}

/// No folders can be read in two ways in a layout that passes its check: of two ways to leave
/// levels out that both look like the folders, neither leaves out what the other does not.
pub proof fn checked_layout_reads_one_way(
    levels: Seq<LevelView>,
    folders: Seq<Seq<char>>,
    one: Seq<bool>,
    other: Seq<bool>,
)
    requires
        layout_fault(levels) is None,
        readable(levels, one, folders),
        readable(levels, other, folders),
    ensures
        one == other,
{
    let count = optional_count(levels);
    lemma_number(one);
    lemma_number(other);
    let m = number(one);
    let n = number(other);
    if m < n {
        assert(looks_like(levels, m, n));
        lemma_no_clash(levels, pow2(count), m, n);
    } else if n < m {
        assert(looks_like(levels, n, m));
        lemma_no_clash(levels, pow2(count), n, m);
    }
}

/// Folders that are placed in a layout look like its levels with some of the optional ones left
/// out, and say exactly the folders.
pub proof fn placed_folders_are_readable(
    levels: Seq<LevelView>,
    folders: Seq<Seq<char>>,
    event: Seq<char>,
) -> (left_out: Seq<bool>)
    requires
        place(levels, folders, event) is Some,
    ensures
        readable(levels, left_out, folders),
        place(levels, folders, event)->0.len() == folders.len(),
        forall|i: int|
            0 <= i < folders.len() ==> (#[trigger] place(levels, folders, event)->0[i]).1
                == folders[i],
    decreases levels.len(),
{
    if levels.len() == 0 {
        assert(shapes_of(folders) =~= shapes_left(levels, Seq::empty()));
        Seq::empty()
    } else {
        let component = levels[0].component;
        let taken = if folders.len() > 0 && shape_of(folders[0]) == component.shape() && agreeing(
            component,
            folders[0],
            event,
        ) {
            place(levels.skip(1), folders.skip(1), event)
        } else {
            None
        };
        match taken {
            Some(found) => {
                let rest = placed_folders_are_readable(levels.skip(1), folders.skip(1), event);
                assert forall|i: int| 0 <= i < folders.len() implies (#[trigger] place(
                    levels,
                    folders,
                    event,
                )->0[i]).1 == folders[i] by {
                    if i > 0 {
                        assert(place(levels, folders, event)->0[i] == found[i - 1]);
                        assert(folders.skip(1)[i - 1] == folders[i]);
                    }
                }
                assert(shapes_of(folders) =~= seq![component.shape()] + shapes_of(folders.skip(1)));
                if levels[0].optional {
                    let all = seq![false] + rest;
                    assert(all.skip(1) =~= rest);
                    assert(readable(levels, all, folders));
                    all
                } else {
                    rest
                }
            },
            None => {
                let rest = placed_folders_are_readable(levels.skip(1), folders, event);
                let all = seq![true] + rest;
                assert(all.skip(1) =~= rest);
                all
            },
        }
    }
}

/// Whether a level is read back as it was written: not so a tag level that has to be there and
/// whose root ends in the mark of an optional one.
pub open spec fn legible(level: LevelView) -> bool {
    !level.optional ==> !(level.component matches ComponentView::Tag(root) && root.len() > 0
        && root.last() == '?')
}

proof fn lemma_names(levels: Seq<LevelView>, i: int)
    requires
        names_fault(levels) is None,
        0 <= i < levels.len(),
    ensures
        levels[i].component matches ComponentView::Tag(root) ==> root_named(root),
    decreases levels.len(),
{
    if i < levels.len() - 1 {
        lemma_names(levels.drop_last(), i);
    }
}

/// What tells the keys apart, and what none of them holds.
proof fn lemma_keys()
    ensures
        "country"@.len() > 3 && "country"@[3] == 'n' && plain_key("country"@),
        "region"@.len() > 3 && "region"@[3] == 'i' && plain_key("region"@),
        "city"@.len() > 3 && "city"@[3] == 'y' && plain_key("city"@),
        "year"@.len() > 3 && "year"@[3] == 'r' && plain_key("year"@),
        "month"@.len() > 3 && "month"@[3] == 't' && plain_key("month"@),
        "tag:"@.len() == 4 && "tag:"@[3] == ':' && plain_key("tag:"@),
{
    reveal_strlit("country");
    reveal_strlit("region");
    reveal_strlit("city");
    reveal_strlit("year");
    reveal_strlit("month");
    reveal_strlit("tag:");
}

spec fn plain_key(key: Seq<char>) -> bool {
    key.len() > 0 && tight(key) && !key.contains('/') && key.last() != '?'
}

proof fn lemma_tag_key_reads_back(root: Seq<char>)
    requires
        root.len() > 0,
        tight(root),
        !root.contains('/'),
    ensures
        ({
            let key = "tag:"@ + root;
            key.len() > 0 && tight(key) && !key.contains('/') && key.last() == root.last()
                && component_of(key) == Some(ComponentView::Tag(root))
        }),
{
    lemma_keys();
    let tag = "tag:"@;
    let key = tag + root;
    assert(key[0] == tag[0]);
    assert(key[3] == tag[3]);
    assert(key.last() == root.last());
    assert(!key.contains('/')) by {
        if key.contains('/') {
            let i = choose|i: int| 0 <= i < key.len() && key[i] == '/';
            if i < 4 {
                assert(tag[i] == '/');
            } else {
                assert(root[i - 4] == '/');
            }
        }
    }
    assert(key.take(4) =~= tag);
    assert(key.skip(4) =~= root);
}

proof fn lemma_key_reads_back(component: ComponentView)
    requires
        component matches ComponentView::Tag(root) ==> root_named(root),
    ensures
        component.key().len() > 0,
        tight(component.key()),
        !component.key().contains('/'),
        component_of(component.key()) == Some(component),
        component matches ComponentView::Tag(root) ==> root.len() > 0 && component.key().last()
            == root.last(),
        !(component is Tag) ==> component.key().last() != '?',
{
    match component {
        ComponentView::Tag(root) => {
            crate::text::trimmed_is_tight(root);
            lemma_tag_key_reads_back(root);
        },
        _ => {
            lemma_keys();
        },
    }
}

proof fn lemma_level_reads_back(level: LevelView)
    requires
        legible(level),
        level.component matches ComponentView::Tag(root) ==> root_named(root),
    ensures
        level.written().len() > 0,
        !level.written().contains('/'),
        trimmed(level.written()) == level.written(),
        level_of(level.written()) == Ok::<LevelView, Seq<char>>(level),
{
    let key = level.component.key();
    let text = level.written();
    lemma_key_reads_back(level.component);
    reveal_strlit("?");
    if level.optional {
        assert(text.drop_last() =~= key);
        assert(text[0] == key[0]);
        assert(!text.contains('/')) by {
            if text.contains('/') {
                let i = choose|i: int| 0 <= i < text.len() && text[i] == '/';
                assert(key[i] == '/');
            }
        }
    }
    assert(tight(text));
    crate::text::trimmed_is_tight(text);
}

proof fn lemma_levels_read_back(levels: Seq<LevelView>)
    requires
        forall|i: int| 0 <= i < levels.len() ==> legible(#[trigger] levels[i]),
        forall|i: int|
            0 <= i < levels.len() ==> ((#[trigger] levels[i]).component matches ComponentView::Tag(
                root,
            ) ==> root_named(root)),
    ensures
        levels_of(written_levels(levels)) == Ok::<Seq<LevelView>, Seq<char>>(levels),
        forall|i: int|
            0 <= i < levels.len() ==> !(#[trigger] written_levels(levels)[i]).contains('/'),
    decreases levels.len(),
{
    if levels.len() > 0 {
        let front = levels.drop_last();
        assert forall|i: int| 0 <= i < front.len() implies legible(#[trigger] front[i]) by {
            assert(front[i] == levels[i]);
        }
        assert forall|i: int| 0 <= i < front.len() implies ((
        #[trigger] front[i]).component matches ComponentView::Tag(root) ==> root_named(root)) by {
            assert(front[i] == levels[i]);
        }
        lemma_levels_read_back(front);
        lemma_level_reads_back(levels[levels.len() - 1]);
        assert(written_levels(levels).drop_last() =~= written_levels(front));
        assert forall|i: int| 0 <= i < levels.len() implies !(
        #[trigger] written_levels(levels)[i]).contains('/') by {
            if i < front.len() {
                assert(written_levels(front)[i] == written_levels(levels)[i]);
            }
        }
        assert(front.push(levels.last()) =~= levels);
    } else {
        assert(levels =~= Seq::empty());
    }
}

/// A layout that passes its check is read back from the text it is kept as.
pub proof fn layout_is_read_back(levels: Seq<LevelView>)
    requires
        layout_fault(levels) is None,
        forall|i: int| 0 <= i < levels.len() ==> legible(#[trigger] levels[i]),
    ensures
        layout_of(written(levels)) == Ok::<Seq<LevelView>, Seq<char>>(levels),
{
    assert forall|i: int| 0 <= i < levels.len() implies ((
    #[trigger] levels[i]).component matches ComponentView::Tag(root) ==> root_named(root)) by {
        lemma_names(levels, i);
    }
    lemma_levels_read_back(levels);
    let parts = written_levels(levels);
    if levels.len() > 0 {
        crate::text::joined_parts_split_again(parts, '/');
    } else {
        let none = Seq::<Seq<char>>::empty();
        assert(split(written(levels), '/') =~= seq![Seq::<char>::empty()]);
        assert(seq![Seq::<char>::empty()].drop_last() =~= none);
        assert(trimmed(Seq::<char>::empty()) =~= Seq::<char>::empty());
        reveal_with_fuel(levels_of, 2);
        assert(levels =~= Seq::empty());
    }
}

// ---- What holds of a placement -----------------------------------------------------------------

/// A folder named by a date and a name is read as that event: a year, a month and a day, each
/// where it is not zeroed out, and the name.
pub proof fn an_event_folder_says_its_date_and_name(
    year: nat,
    month: nat,
    day: nat,
    name: Seq<char>,
)
    requires
        year <= 9999,
        month <= 99,
        day <= 99,
        name.len() > 0,
        trimmed(name) == name,
        tight(name),
    ensures
        ({
            let date = crate::text::padded(year, 4) + seq!['-'] + crate::text::padded(month, 2)
                + seq!['-'] + crate::text::padded(day, 2);
            event_of(date + seq![' '] + name) matches Some(event) && {
                &&& event.text == date
                &&& event.name == Some(name)
                &&& event.year == if year == 0 {
                    None
                } else {
                    Some(year as int)
                }
                &&& event.month == if month == 0 {
                    None
                } else {
                    Some(month as int)
                }
                &&& event.day == if day == 0 {
                    None
                } else {
                    Some(day as int)
                }
            }
        }),
{
    let (a, b, c) = (
        crate::text::padded(year, 4),
        crate::text::padded(month, 2),
        crate::text::padded(day, 2),
    );
    crate::text::padded_reads_back(year, 4);
    crate::text::padded_reads_back(month, 2);
    crate::text::padded_reads_back(day, 2);
    crate::text::lemma_decimal_len(year);
    crate::text::lemma_decimal_len(month);
    crate::text::lemma_decimal_len(day);
    let date = a + seq!['-'] + b + seq!['-'] + c;
    let folder = date + seq![' '] + name;
    assert(a.len() == 4 && b.len() == 2 && c.len() == 2);
    assert(folder.subrange(0, 4) =~= a);
    assert(folder.subrange(5, 7) =~= b);
    assert(folder.subrange(8, 10) =~= c);
    assert(folder.take(10) =~= date);
    assert(folder[4] == '-' && folder[7] == '-' && folder[10] == ' ');
    assert(crate::text::is_digit(a[0]) && crate::text::is_digit(b[0]) && crate::text::is_digit(
        c[0],
    ));
    let behind = folder.skip(10);
    assert(behind =~= seq![' '] + name);
    assert(behind.skip(1) =~= name);
    assert(crate::text::white(behind[0]));
    assert(crate::text::trimmed_start(behind) == crate::text::trimmed_start(name));
    assert(trimmed(behind) == trimmed(name));
}

/// The event of some folders is the first that carries a date.
pub proof fn the_event_is_the_first_folder_with_a_date(folders: Seq<Seq<char>>)
    ensures
        0 <= event_at(folders) <= folders.len(),
        event_at(folders) < folders.len() ==> event_of(folders[event_at(folders)]) is Some,
        forall|i: int| 0 <= i < event_at(folders) ==> event_of(#[trigger] folders[i]) is None,
    decreases folders.len(),
{
    if folders.len() > 0 && event_of(folders[0]) is None {
        let rest = folders.skip(1);
        the_event_is_the_first_folder_with_a_date(rest);
        assert forall|i: int| 0 <= i < event_at(folders) implies event_of(
            #[trigger] folders[i],
        ) is None by {
            if i > 0 {
                assert(rest[i - 1] == folders[i]);
            }
        }
    }
}

proof fn lemma_joined_both(a: Seq<Seq<char>>, b: Seq<Seq<char>>)
    requires
        a.len() > 0,
        b.len() > 0,
    ensures
        joined(a + b, seq!['/']) == joined(a, seq!['/']) + seq!['/'] + joined(b, seq!['/']),
    decreases b.len(),
{
    let sep = seq!['/'];
    assert((a + b).drop_last() =~= a + b.drop_last());
    if b.len() == 1 {
        assert(b.drop_last() =~= Seq::empty());
        assert(a + b.drop_last() =~= a);
    } else {
        lemma_joined_both(a, b.drop_last());
        assert(joined(a + b, sep) =~= joined(a, sep) + sep + joined(b, sep));
    }
}

/// A photo in an event has the event's date and name, and is in the layout exactly where the
/// folders above the event are its levels. The event's folder, and what is below it, are the whole
/// of its folders.
pub proof fn a_photo_in_an_event_says_which(folders: Seq<Seq<char>>, layout: Seq<LevelView>)
    requires
        event_at(folders) < folders.len(),
    ensures
        ({
            let at = event_at(folders);
            let event = event_of(folders[at])->0;
            let found = placement_in(folders, layout);
            &&& found.event_text == Some(event.text)
            &&& found.event_year == event.year
            &&& found.event_month == event.month
            &&& found.event_day == event.day
            &&& found.event_name == event.name
            &&& found.above == folders.take(at)
            &&& found.fit == Fit::InLayout <==> place(layout, folders.take(at), event.text) is Some
            &&& found.fit == Fit::InLayout || found.fit == Fit::OffLayout
            &&& found.event_dir matches Some(dir)
            &&& joined(folders, seq!['/']) == match found.sub_path {
                Some(below) => dir + seq!['/'] + below,
                None => dir,
            }
        }),
{
    let at = event_at(folders);
    the_event_is_the_first_folder_with_a_date(folders);
    let event = event_of(folders[at])->0;
    let levels = match place(layout, folders.take(at), event.text) {
        Some(levels) => levels,
        None => Seq::empty(),
    };
    let sub = folders.skip(at + 1);
    let bare = PlacementView {
        event_text: Some(event.text),
        event_year: event.year,
        event_month: event.month,
        event_day: event.day,
        event_name: event.name,
        sub_path: if sub.len() > 0 {
            Some(joined(sub, seq!['/']))
        } else {
            None
        },
        event_dir: Some(joined(folders.take(at + 1), seq!['/'])),
        above: folders.take(at),
        fit: if place(layout, folders.take(at), event.text) is Some {
            Fit::InLayout
        } else {
            Fit::OffLayout
        },
        ..nowhere()
    };
    lemma_levels_keep_the_rest(bare, levels);
    assert(placement_in(folders, layout) == with_levels(bare, levels));
    if sub.len() > 0 {
        lemma_joined_both(folders.take(at + 1), sub);
        assert(folders.take(at + 1) + sub =~= folders);
    } else {
        assert(folders.take(at + 1) =~= folders);
    }
}

/// A photo without an event above it is loose, or in a folder where an event should be; one
/// without folders is loose at the root.
pub proof fn a_photo_without_an_event_is_loose(folders: Seq<Seq<char>>, layout: Seq<LevelView>)
    requires
        event_at(folders) == folders.len(),
    ensures
        ({
            let found = placement_in(folders, layout);
            &&& found.event_text is None && found.event_dir is None && found.event_name is None
            &&& found.fit == Fit::LooseAtRoot <==> folders.len() == 0
            &&& found.fit == Fit::LooseInFolder <==> folders.len() > 0 && loose(
                layout,
                folders,
            ) is Some
            &&& found.fit == Fit::EventWithoutDate <==> folders.len() > 0 && loose(
                layout,
                folders,
            ) is None
        }),
{
    if folders.len() > 0 {
        match loose(layout, folders) {
            Some(levels) => {
                lemma_levels_keep_the_rest(
                    PlacementView { above: folders, fit: Fit::LooseInFolder, ..nowhere() },
                    levels,
                );
            },
            None => {
                let sub = joined(folders.skip(1), seq!['/']);
                lemma_levels_keep_the_rest(
                    PlacementView {
                        sub_path: if sub.len() > 0 {
                            Some(sub)
                        } else {
                            None
                        },
                        above: folders,
                        fit: Fit::EventWithoutDate,
                        ..nowhere()
                    },
                    match loose(layout, folders.take(1)) {
                        Some(levels) => levels,
                        None => Seq::empty(),
                    },
                );
            },
        }
    }
}

/// The levels of a placement change nothing of its event, of what is above and below it, and of
/// how it fits.
proof fn lemma_levels_keep_the_rest(
    placement: PlacementView,
    levels: Seq<(ComponentView, Seq<char>)>,
)
    ensures
        ({
            let found = with_levels(placement, levels);
            &&& found.levels == levels
            &&& found.event_text == placement.event_text
            &&& found.event_year == placement.event_year
            &&& found.event_month == placement.event_month
            &&& found.event_day == placement.event_day
            &&& found.event_name == placement.event_name
            &&& found.event_dir == placement.event_dir
            &&& found.sub_path == placement.sub_path
            &&& found.above == placement.above
            &&& found.fit == placement.fit
        }),
    decreases levels.len(),
{
    if levels.len() > 0 {
        lemma_levels_keep_the_rest(placement, levels.drop_last());
    }
}

/// The folder of each kind of level stands in its own place: a country's as the country, a
/// region's as the region, a city's as the city and a tag's as the tag.
pub proof fn each_level_is_in_its_own_place(
    placement: PlacementView,
    levels: Seq<(ComponentView, Seq<char>)>,
    i: int,
)
    requires
        0 <= i < levels.len(),
        forall|j: int|
            i < j < levels.len() ==> (#[trigger] levels[j]).0 != levels[i].0 && !(levels[j].0 is Tag
                && levels[i].0 is Tag),
    ensures
        ({
            let found = with_levels(placement, levels);
            match levels[i].0 {
                ComponentView::Country => found.country == Some(levels[i].1),
                ComponentView::Region => found.region == Some(levels[i].1),
                ComponentView::City => found.city == Some(levels[i].1),
                ComponentView::Tag(_) => found.tag == Some(levels[i].1),
                _ => true,
            }
        }),
    decreases levels.len(),
{
    let front = levels.drop_last();
    if i < front.len() {
        assert(levels[levels.len() - 1].0 != levels[i].0);
        assert forall|j: int| i < j < front.len() implies (#[trigger] front[j]).0 != front[i].0
            && !(front[j].0 is Tag && front[i].0 is Tag) by {
            assert(levels[j].0 != levels[i].0);
        }
        each_level_is_in_its_own_place(placement, front, i);
    }
}

/// A level that is not there leaves its place as it was.
pub proof fn a_level_that_is_not_there_says_nothing(
    placement: PlacementView,
    levels: Seq<(ComponentView, Seq<char>)>,
    component: ComponentView,
)
    requires
        forall|i: int|
            0 <= i < levels.len() ==> (#[trigger] levels[i]).0 != component && !(levels[i].0 is Tag
                && component is Tag),
    ensures
        ({
            let found = with_levels(placement, levels);
            match component {
                ComponentView::Country => found.country == placement.country,
                ComponentView::Region => found.region == placement.region,
                ComponentView::City => found.city == placement.city,
                ComponentView::Tag(_) => found.tag == placement.tag,
                _ => true,
            }
        }),
    decreases levels.len(),
{
    if levels.len() > 0 {
        let front = levels.drop_last();
        assert(levels[levels.len() - 1].0 != component);
        assert forall|i: int| 0 <= i < front.len() implies (#[trigger] front[i]).0 != component
            && !(front[i].0 is Tag && component is Tag) by {
            assert(levels[i].0 != component);
        }
        a_level_that_is_not_there_says_nothing(placement, front, component);
    }
}

/// A folder is taken as a level only where it looks like one, and a year or a month only where it
/// is that of the event.
pub proof fn a_year_folder_is_the_year_of_its_events(
    levels: Seq<LevelView>,
    folders: Seq<Seq<char>>,
    event: Seq<char>,
    i: int,
)
    requires
        place(levels, folders, event) is Some,
        0 <= i < place(levels, folders, event)->0.len(),
    ensures
        ({
            let found = place(levels, folders, event)->0[i];
            &&& exists|k: int| 0 <= k < levels.len() && (#[trigger] levels[k]).component == found.0
            &&& shape_of(found.1) == found.0.shape()
            &&& found.0 is Year ==> head(event, 4) == Some(found.1)
            &&& found.0 is Month ==> head(event, 7) == Some(found.1)
        }),
    decreases levels.len(),
{
    let all = place(levels, folders, event)->0;
    if levels.len() > 0 {
        let rest = levels.skip(1);
        let component = levels[0].component;
        assert forall|k: int| 0 <= k < rest.len() implies #[trigger] rest[k] == levels[k + 1] by {}
        if folders.len() > 0 && shape_of(folders[0]) == component.shape() && agreeing(
            component,
            folders[0],
            event,
        ) && place(rest, folders.skip(1), event) is Some {
            let more = place(rest, folders.skip(1), event)->0;
            assert(all == seq![(component, folders[0])] + more);
            if i == 0 {
                assert(levels[0].component == all[0].0);
            } else {
                a_year_folder_is_the_year_of_its_events(rest, folders.skip(1), event, i - 1);
                assert(all[i] == more[i - 1]);
                let k = choose|k: int|
                    0 <= k < rest.len() && (#[trigger] rest[k]).component == more[i - 1].0;
                assert(levels[k + 1].component == all[i].0);
            }
        } else {
            a_year_folder_is_the_year_of_its_events(rest, folders, event, i);
            let k = choose|k: int|
                0 <= k < rest.len() && (#[trigger] rest[k]).component == all[i].0;
            assert(levels[k + 1].component == all[i].0);
        }
    }
}

/// The folders of a path are its parts that are not empty, but the last, which is the file.
pub proof fn the_folders_of_a_path_are_its_parts_but_the_last(parts: Seq<Seq<char>>)
    ensures
        filled(parts) == parts.filter(|part: Seq<char>| part.len() > 0),
    decreases parts.len(),
{
    reveal(Seq::filter);
    if parts.len() > 0 {
        the_folders_of_a_path_are_its_parts_but_the_last(parts.drop_last());
    } else {
        assert(filled(parts) =~= parts);
    }
}

/// The levels that are needed are those that may not be left out, in their order.
pub proof fn the_levels_needed_are_those_not_optional(levels: Seq<LevelView>)
    ensures
        required(levels) == levels.filter(|level: LevelView| !level.optional).map_values(
            |level: LevelView| level.component,
        ),
    decreases levels.len(),
{
    reveal(Seq::filter);
    let kept = |level: LevelView| !level.optional;
    let component = |level: LevelView| level.component;
    if levels.len() == 0 {
        assert(levels.filter(kept).map_values(component) =~= Seq::empty());
    } else {
        let front = levels.drop_last();
        the_levels_needed_are_those_not_optional(front);
        if kept(levels.last()) {
            assert(levels.filter(kept).map_values(component) =~= front.filter(kept).map_values(
                component,
            ).push(levels.last().component));
        }
    }
}

/// Nothing is wrong with the levels one by one exactly where every tag level has the name of a
/// top-level tag as its root, without white space around it, and no level is there twice.
pub proof fn levels_are_named_and_apart(levels: Seq<LevelView>)
    ensures
        names_fault(levels) is None <==> {
            &&& forall|i: int|
                0 <= i < levels.len() ==> ((#[trigger] levels[i]).component matches ComponentView::Tag(
                    root,
                ) ==> root.len() > 0 && trimmed(root) == root && !root.contains('/'))
            &&& forall|i: int, j: int|
                0 <= i < j < levels.len() ==> (#[trigger] levels[i]).component != (
                #[trigger] levels[j]).component
        },
    decreases levels.len(),
{
    if levels.len() > 0 {
        let front = levels.drop_last();
        let last = levels.last();
        levels_are_named_and_apart(front);
        assert(last == levels[levels.len() - 1]);
        if names_fault(levels) is None {
            assert forall|i: int| 0 <= i < levels.len() implies ((
            #[trigger] levels[i]).component matches ComponentView::Tag(root) ==> root.len() > 0
                && trimmed(root) == root && !root.contains('/')) by {
                if i < front.len() {
                    assert(front[i] == levels[i]);
                }
            }
            assert forall|i: int, j: int| 0 <= i < j < levels.len() implies (
            #[trigger] levels[i]).component != (#[trigger] levels[j]).component by {
                assert(front[i] == levels[i]);
                if j < front.len() {
                    assert(front[j] == levels[j]);
                }
            }
        } else if names_fault(front) is Some {
            if forall|i: int|
                0 <= i < levels.len() ==> ((#[trigger] levels[i]).component matches ComponentView::Tag(
                    root,
                ) ==> root.len() > 0 && trimmed(root) == root && !root.contains('/')) {
                assert forall|i: int| 0 <= i < front.len() implies ((
                #[trigger] front[i]).component matches ComponentView::Tag(root) ==> root.len() > 0
                    && trimmed(root) == root && !root.contains('/')) by {
                    assert(front[i] == levels[i]);
                }
                let (i, j) = choose|i: int, j: int|
                    0 <= i < j < front.len() && (#[trigger] front[i]).component == (
                    #[trigger] front[j]).component;
                assert(levels[i] == front[i]);
                assert(levels[j] == front[j]);
            }
        } else if has_component(front, last.component) {
            let i = choose|i: int|
                0 <= i < front.len() && (#[trigger] front[i]).component == last.component;
            assert(levels[i] == front[i]);
        }
    }
}

/// The folder read for a component is the first that was read for it, and there is one exactly
/// where one was read.
pub proof fn a_folder_is_read_for_its_component(
    component: ComponentView,
    read: Seq<(ComponentView, Seq<char>)>,
)
    ensures
        folder_read(component, read) is None <==> (forall|i: int|
            0 <= i < read.len() ==> (#[trigger] read[i]).0 != component),
        folder_read(component, read) matches Some(folder) ==> exists|i: int|
            0 <= i < read.len() && #[trigger] read[i] == (component, folder) && forall|j: int|
                0 <= j < i ==> (#[trigger] read[j]).0 != component,
    decreases read.len(),
{
    if read.len() > 0 {
        let rest = read.skip(1);
        a_folder_is_read_for_its_component(component, rest);
        assert forall|i: int| 0 < i < read.len() implies #[trigger] read[i] == rest[i - 1] by {}
        if read[0].0 == component {
            assert(read[0] == (component, read[0].1));
        } else if let Some(folder) = folder_read(component, read) {
            let i = choose|i: int|
                0 <= i < rest.len() && #[trigger] rest[i] == (component, folder) && forall|j: int|
                    0 <= j < i ==> (#[trigger] rest[j]).0 != component;
            assert(read[i + 1] == (component, folder));
            assert forall|j: int| 0 <= j < i + 1 implies (#[trigger] read[j]).0 != component by {
                if j > 0 {
                    assert(rest[j - 1].0 != component);
                }
            }
        } else {
            assert forall|i: int| 0 <= i < read.len() implies (#[trigger] read[i]).0
                != component by {
                if i > 0 {
                    assert(rest[i - 1].0 != component);
                }
            }
        }
    }
}

} // verus!
