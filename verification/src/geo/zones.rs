//! Which time zone a photo was taken in, as far as the place data knows: a point is in the zone
//! of the nearest place, a country in the zone most of its places are in. What the offset of a
//! zone was on a day is the IANA rules' business, in [`crate::dates`].

use vstd::prelude::*;

use crate::number::Real;
use crate::text::view_opt;

verus! {

/// What the place data says about a country's time zone.
#[derive(Debug, Clone, PartialEq, Eq)]
pub enum CountryZone {
    One(String),
    /// Its zones, most places first, with how many places each has.
    Several(Vec<(String, i64)>),
    /// The place data has no place in it.
    Unknown,
}

#[verifier::ext_equal]
pub enum CountryZoneView {
    One(Seq<char>),
    Several(Seq<(Seq<char>, i64)>),
    Unknown,
}

pub open spec fn zone_views(zones: Seq<(String, i64)>) -> Seq<(Seq<char>, i64)> {
    zones.map_values(|zone: (String, i64)| (zone.0@, zone.1))
}

impl View for CountryZone {
    type V = CountryZoneView;

    open spec fn view(&self) -> CountryZoneView {
        match self {
            CountryZone::One(zone) => CountryZoneView::One(zone@),
            CountryZone::Several(zones) => CountryZoneView::Several(zone_views(zones@)),
            CountryZone::Unknown => CountryZoneView::Unknown,
        }
    }
}

pub open spec fn places_in(zones: Seq<(Seq<char>, i64)>) -> int
    decreases zones.len(),
{
    if zones.len() == 0 {
        0
    } else {
        places_in(zones.drop_last()) + zones.last().1
    }
}

/// The zone of a country: a second zone that holds a tenth of its places or more makes it a
/// country of several.
pub open spec fn zone_of(zones: Seq<(Seq<char>, i64)>) -> CountryZoneView {
    if zones.len() == 0 {
        CountryZoneView::Unknown
    } else if zones.len() == 1 || 10 * zones[1].1 < places_in(zones) {
        CountryZoneView::One(zones[0].0)
    } else {
        CountryZoneView::Several(zones)
    }
}

/// The zone most of a country's places have, unless another holds a real share of them. Given are
/// the zones of its places, most places first.
pub fn country_zone(zones: Vec<(String, i64)>) -> (zone: CountryZone)
    ensures
        zone@ == zone_of(zone_views(zones@)),
{
    let ghost all = zone_views(zones@);
    assert(all.len() == zones@.len());
    if zones.len() == 0 {
        return CountryZone::Unknown;
    }
    if zones.len() > 1 {
        let mut total: i128 = 0;
        assert(all.take(0) =~= Seq::empty());
        for i in 0..zones.len()
            invariant
                all == zone_views(zones@),
                total == places_in(all.take(i as int)),
                i64::MIN * i <= total <= i64::MAX * i,
        {
            assert(all.take(i + 1).drop_last() =~= all.take(i as int));
            assert(all.take(i + 1).last() == (zones@[i as int].0@, zones@[i as int].1));
            assert(i64::MIN * (i + 1) == i64::MIN * i + i64::MIN) by (nonlinear_arith);
            assert(i64::MAX * (i + 1) == i64::MAX * i + i64::MAX) by (nonlinear_arith);
            assert(i64::MAX * i <= 0x7fff_ffff_ffff_ffff * 0xffff_ffff_ffff_ffff) by (nonlinear_arith)
                requires
                    i <= 0xffff_ffff_ffff_ffff,
            ;
            assert(i64::MIN * i >= -0x8000_0000_0000_0000 * 0xffff_ffff_ffff_ffff) by (nonlinear_arith)
                requires
                    i <= 0xffff_ffff_ffff_ffff,
            ;
            total = total + zones[i].1 as i128;
        }
        assert(all.take(zones@.len() as int) =~= all);
        assert(all[1].1 == zones@[1].1);
        if !(10 * (zones[1].1 as i128) < total) {
            return CountryZone::Several(zones);
        }
    }
    assert(all[0].0 == zones@[0].0@);
    CountryZone::One(zones[0].0.clone())
}

/// The place of the first of these that is nearer than those before it and never passed.
pub open spec fn nearest_at(places: Seq<(Real, String)>) -> Option<int>
    decreases places.len(),
{
    if places.len() == 0 {
        None
    } else {
        match nearest_at(places.drop_last()) {
            None => Some(places.len() - 1),
            Some(best) => if places.last().0.less(places[best].0) {
                Some(places.len() - 1)
            } else {
                Some(best)
            },
        }
    }
}

/// The zone of the nearest of the places within reach, given how far each is.
pub fn zone_near(places: &[(Real, String)]) -> (zone: Option<String>)
    ensures
        view_opt(zone) == (match nearest_at(places@) {
            Some(k) => Some(places@[k].1@),
            None => None,
        }),
{
    let mut best: Option<usize> = None;
    assert(places@.take(0) =~= Seq::empty());
    for i in 0..places.len()
        invariant
            match best {
                Some(k) => k < i && nearest_at(places@.take(i as int)) == Some(k as int),
                None => nearest_at(places@.take(i as int)) is None,
            },
    {
        assert(places@.take(i + 1).drop_last() =~= places@.take(i as int));
        let nearer = match best {
            None => true,
            Some(k) => places[i].0.is_less(places[k].0),
        };
        if nearer {
            best = Some(i);
        }
    }
    assert(places@.take(places@.len() as int) =~= places@);
    match best {
        Some(k) => Some(places[k].1.clone()),
        None => None,
    }
}

/// A country has one zone where it has only one, or where its second holds less than a tenth of
/// its places; that zone is the first. With more it has several, all of them told, and without any
/// its zone is not known.
pub proof fn a_zone_with_few_places_is_passed_over(zones: Seq<(Seq<char>, i64)>)
    ensures
        zone_of(zones) is Unknown <==> zones.len() == 0,
        zone_of(zones) matches CountryZoneView::One(zone) ==> zone == zones[0].0,
        zone_of(zones) matches CountryZoneView::Several(all) ==> all == zones,
        zone_of(zones) is One <==> zones.len() == 1 || (zones.len() > 1 && 10 * zones[1].1
            < zones.map_values(|zone: (Seq<char>, i64)| zone.1 as int).fold_left(
            0,
            |sum: int, n: int| sum + n,
        )),
{
    lemma_places_in(zones);
}

proof fn lemma_places_in(zones: Seq<(Seq<char>, i64)>)
    ensures
        places_in(zones) == zones.map_values(|zone: (Seq<char>, i64)| zone.1 as int).fold_left(
            0,
            |sum: int, n: int| sum + n,
        ),
    decreases zones.len(),
{
    let count = |zone: (Seq<char>, i64)| zone.1 as int;
    if zones.len() > 0 {
        lemma_places_in(zones.drop_last());
        assert(zones.map_values(count).drop_last() =~= zones.drop_last().map_values(count));
    }
}

/// The nearest place is one of those given, and none is nearer.
pub proof fn no_place_is_nearer_than_the_nearest(places: Seq<(Real, String)>)
    ensures
        nearest_at(places) is None <==> places.len() == 0,
        nearest_at(places) matches Some(best) ==> 0 <= best < places.len() && forall|i: int|
            0 <= i < places.len() && places[0].0.number() ==> !(#[trigger] places[i]).0.less(
                places[best].0,
            ),
    decreases places.len(),
{
    if places.len() > 0 {
        let front = places.drop_last();
        no_place_is_nearer_than_the_nearest(front);
        assert forall|i: int| 0 <= i < front.len() implies #[trigger] front[i] == places[i] by {}
        let best = nearest_at(places)->0;
        if front.len() > 0 {
            let kept = nearest_at(front)->0;
            assert forall|i: int| 0 <= i < places.len() && places[0].0.number() implies !(
            #[trigger] places[i]).0.less(places[best].0) by {
                if i < front.len() {
                    assert(!front[i].0.less(front[kept].0));
                }
            }
        }
    }
}

} // verus!
