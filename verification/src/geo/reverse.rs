//! From coordinates to a name. The places come from the points around, the country from the
//! country outlines: the nearest city can easily be on the other side of a border.

use vstd::prelude::*;

use crate::geo::lookup::{Place, PlaceView};
use crate::number::Real;
use crate::text::{copy, same, view_opt};

verus! {

/// How many places are listed at most.
pub const MOST: usize = 5;

/// A part of a town with this many people is a town of its own, such as a city district.
pub const TOWN: i64 = 100_000;

/// Closer than this a place is where the point is: a position given from a tag stands on it. The
/// bits of a hundredth, in kilometres.
pub const ON_THE_POINT: u64 = 0x3f84_7ae1_47ae_147b;

#[derive(Debug, Clone, PartialEq, Eq)]
pub struct Nearby {
    pub place: Place,
    pub km: Real,
}

#[verifier::ext_equal]
pub struct NearbyView {
    pub place: PlaceView,
    pub km: Real,
}

impl View for Nearby {
    type V = NearbyView;

    open spec fn view(&self) -> NearbyView {
        NearbyView { place: self.place@, km: self.km }
    }
}

pub open spec fn nearby_views(list: Seq<Nearby>) -> Seq<NearbyView> {
    list.map_values(|nearby: Nearby| nearby@)
}

pub open spec fn nearby_opt(nearby: Option<Nearby>) -> Option<NearbyView> {
    match nearby {
        Some(nearby) => Some(nearby@),
        None => None,
    }
}

impl Nearby {
    pub fn copy(&self) -> (copied: Nearby)
        ensures
            copied@ == self@,
    {
        Nearby { place: self.place.copy(), km: self.km }
    }
}

/// What is at a point: the country it lies in, the places around it, nearest and biggest
/// first, and the town it is in. Like the forward lookup it decides nothing.
#[derive(Debug, Clone, PartialEq, Eq)]
pub struct At {
    pub country: Option<(String, String)>,
    pub places: Vec<Nearby>,
    /// The nearest place inside the country that is a town: a small part of a town, such as a
    /// neighbourhood, only when the point stands on it.
    pub town: Option<Nearby>,
}

/// Whether a place is a town rather than a small part of one.
pub open spec fn is_town(nearby: NearbyView) -> bool {
    nearby.km.less(Real { bits: ON_THE_POINT }) || nearby.place.feature != "PPLX"@
        || nearby.place.population >= TOWN
}

pub open spec fn first_town(found: Seq<NearbyView>, code: Option<Seq<char>>) -> Option<NearbyView>
    decreases found.len(),
{
    if found.len() == 0 {
        None
    } else if is_town(found[0]) && (code is None || found[0].place.country == code->0) {
        Some(found[0])
    } else {
        first_town(found.skip(1), code)
    }
}

/// Of the places around, sorted, the first that is a town, inside the country whose outline
/// holds the point if there is one there: the nearest of all can be over a border.
pub open spec fn town_among(found: Seq<NearbyView>, code: Option<Seq<char>>) -> Option<NearbyView> {
    match first_town(found, code) {
        Some(town) => Some(town),
        None => first_town(found, None),
    }
}

fn find_town(found: &[Nearby], code: Option<&String>) -> (town: Option<Nearby>)
    ensures
        nearby_opt(town) == first_town(
            nearby_views(found@),
            match code {
                Some(code) => Some(code@),
                None => None,
            },
        ),
{
    let ghost all = nearby_views(found@);
    let ghost said = match code {
        Some(code) => Some(code@),
        None => None,
    };
    assert(all.skip(0) =~= all);
    for i in 0..found.len()
        invariant
            all == nearby_views(found@),
            said == (match code {
                Some(code) => Some(code@),
                None => None,
            }),
            first_town(all, said) == first_town(all.skip(i as int), said),
    {
        assert(all.skip(i as int)[0] == found@[i as int]@);
        assert(all.skip(i as int).skip(1) =~= all.skip(i + 1));
        let nearby = &found[i];
        let is = nearby.km.is_less(Real { bits: ON_THE_POINT }) || !same(
            &nearby.place.feature,
            "PPLX",
        ) || nearby.place.population >= TOWN;
        let inside = match code {
            Some(code) => same(&nearby.place.country, code),
            None => true,
        };
        if is && inside {
            return Some(nearby.copy());
        }
    }
    None
}

pub open spec fn code_of(country: Option<(String, String)>) -> Option<Seq<char>> {
    match country {
        Some((code, _)) => Some(code@),
        None => None,
    }
}

/// The town among the places around, sorted.
pub fn town(found: &[Nearby], country: &Option<(String, String)>) -> (town: Option<Nearby>)
    ensures
        nearby_opt(town) == town_among(nearby_views(found@), code_of(*country)),
{
    let inside = match country {
        Some((code, _)) => find_town(found, Some(code)),
        None => find_town(found, None),
    };
    match inside {
        Some(town) => Some(town),
        None => find_town(found, None),
    }
}

pub open spec fn at_most(found: Seq<NearbyView>) -> Seq<NearbyView> {
    if found.len() <= MOST {
        found
    } else {
        found.take(MOST as int)
    }
}

pub open spec fn kept_opt(places: Option<Vec<Nearby>>) -> Option<Seq<NearbyView>> {
    match places {
        Some(places) => Some(nearby_views(places@)),
        None => None,
    }
}

/// The places that are kept after one more reach: those of the nearest reach that has any.
pub open spec fn places_kept(
    before: Option<Seq<NearbyView>>,
    found: Seq<NearbyView>,
) -> Option<Seq<NearbyView>> {
    if found.len() == 0 {
        before
    } else {
        match before {
            Some(places) => Some(places),
            None => Some(at_most(found)),
        }
    }
}

/// The places around, from the nearest reach that has any; the town may need a wider one. Given
/// is what was found within one more reach, sorted, and the town is returned once there is one:
/// the search is over then.
pub fn around(
    places: &mut Option<Vec<Nearby>>,
    found: &[Nearby],
    country: &Option<(String, String)>,
) -> (town: Option<Nearby>)
    ensures
        kept_opt(*final(places)) == places_kept(kept_opt(*old(places)), nearby_views(found@)),
        nearby_opt(town) == town_among(nearby_views(found@), code_of(*country)),
{
    let ghost all = nearby_views(found@);
    assert(all.len() == found@.len());
    let kept = self::town(found, country);
    if found.len() == 0 {
        return kept;
    }
    if places.is_none() {
        let mut list: Vec<Nearby> = Vec::new();
        let n: usize = if found.len() < MOST {
            found.len()
        } else {
            MOST
        };
        for i in 0..n
            invariant
                n <= found@.len(),
                all == nearby_views(found@),
                nearby_views(list@) == all.take(i as int),
        {
            let ghost before = nearby_views(list@);
            list.push(found[i].copy());
            assert(nearby_views(list@) =~= before.push(all[i as int]));
            assert(all.take(i + 1) =~= before.push(all[i as int]));
        }
        assert(nearby_views(list@) =~= at_most(all));
        *places = Some(list);
    }
    kept
}

/// A ring of a country's outline whose box holds a point: of which shape, whether it is the outer
/// one, and whether the point lies in it.
#[derive(Debug, Clone, PartialEq, Eq)]
pub struct Ring {
    pub country: String,
    pub shape: i64,
    pub hole: i64,
    pub holds: bool,
}

/// Whether a point lies in a hole of a shape.
pub open spec fn in_a_hole(rings: Seq<Ring>, country: Seq<char>, shape: i64) -> bool {
    exists|i: int|
        0 <= i < rings.len() && (#[trigger] rings[i]).holds && rings[i].hole != 0
            && rings[i].country@ == country && rings[i].shape == shape
}

pub open spec fn first_inside(rings: Seq<Ring>, all: Seq<Ring>) -> Option<Seq<char>>
    decreases rings.len(),
{
    if rings.len() == 0 {
        None
    } else if rings[0].holds && rings[0].hole == 0 && !in_a_hole(
        all,
        rings[0].country@,
        rings[0].shape,
    ) {
        Some(rings[0].country@)
    } else {
        first_inside(rings.skip(1), all)
    }
}

fn is_in_a_hole(rings: &[Ring], country: &str, shape: i64) -> (yes: bool)
    ensures
        yes == in_a_hole(rings@, country@, shape),
{
    for i in 0..rings.len()
        invariant
            forall|j: int|
                0 <= j < i ==> !((#[trigger] rings@[j]).holds && rings@[j].hole != 0
                    && rings@[j].country@ == country@ && rings@[j].shape == shape),
    {
        if rings[i].holds && rings[i].hole != 0 && rings[i].shape == shape && same(
            &rings[i].country,
            country,
        ) {
            assert(rings@[i as int].holds);
            return true;
        }
    }
    false
}

/// The country whose outline the point falls in. A point in a hole - Lesotho inside South Africa -
/// is not inside.
pub fn country_at(rings: &[Ring]) -> (country: Option<String>)
    ensures
        view_opt(country) == first_inside(rings@, rings@),
{
    assert(rings@.skip(0) =~= rings@);
    for i in 0..rings.len()
        invariant
            first_inside(rings@, rings@) == first_inside(rings@.skip(i as int), rings@),
    {
        assert(rings@.skip(i as int)[0] == rings@[i as int]);
        assert(rings@.skip(i as int).skip(1) =~= rings@.skip(i + 1));
        if rings[i].holds && rings[i].hole == 0 && !is_in_a_hole(
            rings,
            &rings[i].country,
            rings[i].shape,
        ) {
            return Some(rings[i].country.clone());
        }
    }
    None
}

/// A point that lies in a hole of every shape whose outer ring holds it is in no country.
pub proof fn a_hole_is_not_inside(rings: Seq<Ring>, all: Seq<Ring>)
    requires
        forall|i: int|
            0 <= i < rings.len() && (#[trigger] rings[i]).holds && rings[i].hole == 0 ==> in_a_hole(
                all,
                rings[i].country@,
                rings[i].shape,
            ),
    ensures
        first_inside(rings, all) is None,
    decreases rings.len(),
{
    if rings.len() > 0 {
        assert(rings[0] == rings[0]);
        assert forall|i: int|
            0 <= i < rings.skip(1).len() && (#[trigger] rings.skip(1)[i]).holds && rings.skip(
                1,
            )[i].hole == 0 implies in_a_hole(
            all,
            rings.skip(1)[i].country@,
            rings.skip(1)[i].shape,
        ) by {
            assert(rings.skip(1)[i] == rings[i + 1]);
        }
        a_hole_is_not_inside(rings.skip(1), all);
    }
}

/// Whether a place counts as the town of a point in a country: it is not a small part of a town,
/// or the point stands on it, or it is large; and it is of the country, where there is one.
pub open spec fn counts_as_town(nearby: NearbyView, code: Option<Seq<char>>) -> bool {
    &&& nearby.place.feature != "PPLX"@ || nearby.place.population >= TOWN || nearby.km.less(
        Real { bits: ON_THE_POINT },
    )
    &&& code matches Some(code) ==> nearby.place.country == code
}

proof fn lemma_first_town(found: Seq<NearbyView>, code: Option<Seq<char>>)
    ensures
        first_town(found, code) is None <==> (forall|i: int|
            0 <= i < found.len() ==> !counts_as_town(#[trigger] found[i], code)),
        first_town(found, code) matches Some(town) ==> exists|i: int|
            0 <= i < found.len() && #[trigger] found[i] == town && counts_as_town(town, code)
                && forall|j: int| 0 <= j < i ==> !counts_as_town(#[trigger] found[j], code),
    decreases found.len(),
{
    if found.len() > 0 {
        let rest = found.skip(1);
        lemma_first_town(rest, code);
        assert forall|i: int| 0 < i < found.len() implies #[trigger] found[i] == rest[i - 1] by {}
        assert forall|i: int| 0 <= i < rest.len() implies #[trigger] rest[i] == found[i + 1] by {}
        if counts_as_town(found[0], code) {
            assert(first_town(found, code) == Some(found[0]));
        } else {
            if first_town(rest, code) is Some {
                let town = first_town(rest, code)->0;
                let i = choose|i: int|
                    0 <= i < rest.len() && #[trigger] rest[i] == town && counts_as_town(town, code)
                        && forall|j: int| 0 <= j < i ==> !counts_as_town(#[trigger] rest[j], code);
                assert(found[i + 1] == town);
                assert forall|j: int| 0 <= j < i + 1 implies !counts_as_town(
                    #[trigger] found[j],
                    code,
                ) by {
                    if j > 0 {
                        assert(!counts_as_town(rest[j - 1], code));
                    }
                }
            } else {
                assert forall|i: int| 0 <= i < found.len() implies !counts_as_town(
                    #[trigger] found[i],
                    code,
                ) by {
                    if i > 0 {
                        assert(!counts_as_town(rest[i - 1], code));
                    }
                }
            }
            if forall|i: int| 0 <= i < found.len() ==> !counts_as_town(#[trigger] found[i], code) {
                assert forall|i: int| 0 <= i < rest.len() implies !counts_as_town(
                    #[trigger] rest[i],
                    code,
                ) by {
                    assert(!counts_as_town(found[i + 1], code));
                }
            }
        }
    }
}

/// The town of a point is the first around it that is one and lies in the point's country; only
/// where no town of that country is around is it the first town of any.
pub proof fn the_town_of_a_point_is_in_its_country(
    found: Seq<NearbyView>,
    code: Option<Seq<char>>,
)
    ensures
        town_among(found, code) is None <==> (forall|i: int|
            0 <= i < found.len() ==> !counts_as_town(#[trigger] found[i], None)),
        town_among(found, code) matches Some(town) ==> exists|i: int|
            0 <= i < found.len() && #[trigger] found[i] == town && counts_as_town(town, None) && {
                ||| counts_as_town(town, code) && forall|j: int|
                    0 <= j < i ==> !counts_as_town(#[trigger] found[j], code)
                ||| (forall|j: int|
                    0 <= j < found.len() ==> !counts_as_town(#[trigger] found[j], code)) && forall|
                    j: int,
                |
                    0 <= j < i ==> !counts_as_town(#[trigger] found[j], None)
            },
{
    lemma_first_town(found, code);
    lemma_first_town(found, None);
    if first_town(found, code) is Some {
        let town = first_town(found, code)->0;
        let i = choose|i: int|
            0 <= i < found.len() && #[trigger] found[i] == town && counts_as_town(town, code)
                && forall|j: int| 0 <= j < i ==> !counts_as_town(#[trigger] found[j], code);
        assert(counts_as_town(found[i], None));
    }
}

/// The places of the nearest reach that has any are kept, the first of them, and a wider reach
/// changes nothing.
pub proof fn the_nearest_places_are_kept(
    before: Option<Seq<NearbyView>>,
    found: Seq<NearbyView>,
)
    ensures
        before is Some ==> places_kept(before, found) == before,
        before is None && found.len() == 0 ==> places_kept(before, found) is None,
        before is None && found.len() > 0 ==> (places_kept(before, found) matches Some(kept)
            && kept.len() > 0 && kept.len() <= found.len() && kept == found.take(kept.len() as int)
            && (kept.len() == found.len() || kept.len() == MOST)),
{
    assert(found.take(found.len() as int) =~= found);
}

/// A point lies in a country whose outline holds it and none of whose holes does; where there is
/// such a country one is found.
pub proof fn a_point_is_in_a_country_that_holds_it(rings: Seq<Ring>, all: Seq<Ring>)
    ensures
        first_inside(rings, all) is None <==> (forall|i: int|
            0 <= i < rings.len() ==> !((#[trigger] rings[i]).holds && rings[i].hole == 0
                && !in_a_hole(all, rings[i].country@, rings[i].shape))),
        first_inside(rings, all) matches Some(country) ==> exists|i: int|
            0 <= i < rings.len() && (#[trigger] rings[i]).holds && rings[i].hole == 0
                && rings[i].country@ == country && forall|j: int|
                0 <= j < all.len() ==> !((#[trigger] all[j]).holds && all[j].hole != 0
                    && all[j].country@ == country && all[j].shape == rings[i].shape),
    decreases rings.len(),
{
    if rings.len() > 0 {
        let rest = rings.skip(1);
        a_point_is_in_a_country_that_holds_it(rest, all);
        assert forall|i: int| 0 < i < rings.len() implies #[trigger] rings[i] == rest[i - 1] by {}
        assert forall|i: int| 0 <= i < rest.len() implies #[trigger] rest[i] == rings[i + 1] by {}
        let first = rings[0];
        if first.holds && first.hole == 0 && !in_a_hole(all, first.country@, first.shape) {
            assert(rings[0].country@ == first_inside(rings, all)->0);
        } else {
            if first_inside(rest, all) is Some {
                let country = first_inside(rest, all)->0;
                let i = choose|i: int|
                    0 <= i < rest.len() && (#[trigger] rest[i]).holds && rest[i].hole == 0
                        && rest[i].country@ == country && forall|j: int|
                        0 <= j < all.len() ==> !((#[trigger] all[j]).holds && all[j].hole != 0
                            && all[j].country@ == country && all[j].shape == rest[i].shape);
                assert(rings[i + 1].country@ == country);
            } else {
                assert forall|i: int| 0 <= i < rings.len() implies !((#[trigger] rings[i]).holds
                    && rings[i].hole == 0 && !in_a_hole(
                    all,
                    rings[i].country@,
                    rings[i].shape,
                )) by {
                    if i > 0 {
                        assert(rest[i - 1] == rings[i]);
                    }
                }
            }
            if forall|i: int|
                0 <= i < rings.len() ==> !((#[trigger] rings[i]).holds && rings[i].hole == 0
                    && !in_a_hole(all, rings[i].country@, rings[i].shape)) {
                assert forall|i: int| 0 <= i < rest.len() implies !((#[trigger] rest[i]).holds
                    && rest[i].hole == 0 && !in_a_hole(
                    all,
                    rest[i].country@,
                    rest[i].shape,
                )) by {
                    assert(rings[i + 1] == rest[i]);
                }
            }
        }
    }
}

} // verus!
