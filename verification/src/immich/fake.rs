//! A small Immich for tests: the four read endpoints the fetch uses, with persons and faces over
//! the stand-in library. Never the real one.

use vstd::prelude::*;

use crate::fixtures::PATHS;
use crate::immich::boxes::{on_its_side, sideways};
use crate::immich::snapshot::{face_views, person_views, Face, FaceView, Person, PersonView};
use crate::immich::{face_in, ids_in, listed_in, person_in, ErrorView};
use crate::json::{
    a_field_is_found_by_its_name, field_trees, lemma_field_trees, lemma_trees, lemma_trees_push,
    named, parse_bytes, parsed_bytes, trees, Json, Tree,
};
use crate::layout::int_opt;
use crate::metadata::texts_json;
use crate::text::{
    chars, copy, cut, decimal, decimal_of, natural, read_natural, same, signed,
    signed_numbers_are_read_back, signed_of, split, split_at_each, split_once, trimmed, view_opt,
    views,
};

verus! {

/// The key the fake takes. Any other is refused.
pub const KEY: &'static str = "fake-immich-key-5d1e";

/// Where the stand-in library lies inside the fake.
pub const IMPORT: &'static str = "/gallery/test";

/// A turned photo, a photo already tagged with the person, and one with two people.
pub const TURNED: &'static str = "Germany/2019-07-13 Sommerfest/img_0657.jpg";

pub const TWO: &'static str = "Germany/2019-07-13 Sommerfest/IMAG0001.jpg";

pub const BEN_TAGGED: &'static str = "China/2006-09-00 Besuch Ben/2006-08-21/P1000002.JPG";

pub const BEN_UNTAGGED: &'static str = "China/2006-09-00 Besuch Ben/P1000001.JPG";

pub const KIRA: &'static str = "Ireland/2008-10-03 Galway/Kira/IMG_0002.JPG";

pub const LENA: &'static str = "Denmark/2018-10-00 Wedding Trip to Copenhagen/DSCF0001.JPG";

pub const OFFLINE: &'static str = "Greece/0000-00-00 Aeron ilands/IMG_0005.JPG";

pub const RESIZED: &'static str = "Germany/2016-06-00 Harbour Walk/DSC_0101.JPG";

pub const GONE: &'static str = "Germany/2016-06-00 Harbour Walk/DSC_0404.JPG";

/// Faces only of a hidden person, and only of nobody.
pub const HIDDEN_ONLY: &'static str = "Germany/2014-03-22 Museum/IMG_9001.JPG";

pub const UNNAMED_ONLY: &'static str = "Germany/2014-03-22 Museum/IMG_9002.JPG";

#[derive(Debug, Clone, PartialEq, Eq)]
pub struct FakeAsset {
    pub id: String,
    pub path: String,
    pub offline: bool,
    pub width: Option<i64>,
    pub height: Option<i64>,
    pub orientation: Option<i64>,
    pub faces: Vec<Face>,
}

#[verifier::ext_equal]
pub struct FakeAssetView {
    pub id: Seq<char>,
    pub path: Seq<char>,
    pub offline: bool,
    pub width: Option<int>,
    pub height: Option<int>,
    pub orientation: Option<int>,
    pub faces: Seq<FaceView>,
}

impl View for FakeAsset {
    type V = FakeAssetView;

    open spec fn view(&self) -> FakeAssetView {
        FakeAssetView {
            id: self.id@,
            path: self.path@,
            offline: self.offline,
            width: int_opt(self.width),
            height: int_opt(self.height),
            orientation: int_opt(self.orientation),
            faces: face_views(self.faces@),
        }
    }
}

pub open spec fn fake_views(assets: Seq<FakeAsset>) -> Seq<FakeAssetView> {
    assets.map_values(|asset: FakeAsset| asset@)
}

#[derive(Debug, Clone, PartialEq, Eq)]
pub struct Data {
    pub import_paths: Vec<String>,
    pub people: Vec<Person>,
    pub assets: Vec<FakeAsset>,
}

#[verifier::ext_equal]
pub struct DataView {
    pub import_paths: Seq<Seq<char>>,
    pub people: Seq<PersonView>,
    pub assets: Seq<FakeAssetView>,
}

impl View for Data {
    type V = DataView;

    open spec fn view(&self) -> DataView {
        DataView {
            import_paths: views(self.import_paths@),
            people: person_views(self.people@),
            assets: fake_views(self.assets@),
        }
    }
}

/// Where a photo of the stand-in library lies inside the fake.
pub open spec fn inside(rel_path: Seq<char>) -> Seq<char> {
    IMPORT@ + "/"@ + rel_path
}

/// The place of the first asset at a path, or the number of assets.
pub open spec fn asset_at(assets: Seq<FakeAssetView>, path: Seq<char>) -> int
    decreases assets.len(),
{
    if assets.len() == 0 {
        0
    } else if assets[0].path == path {
        0
    } else {
        1 + asset_at(assets.skip(1), path)
    }
}

/// How many faces the assets have.
pub open spec fn faces_count(assets: Seq<FakeAssetView>) -> nat
    decreases assets.len(),
{
    if assets.len() == 0 {
        0
    } else {
        faces_count(assets.drop_last()) + assets.last().faces.len()
    }
}

pub open spec fn or_hundred(n: Option<int>) -> int {
    match n {
        Some(n) => n,
        None => 100,
    }
}

/// The preview Immich measures faces on: the photo turned the way it is shown, ten times the size.
pub open spec fn preview_of(
    width: Option<int>,
    height: Option<int>,
    orientation: Option<int>,
) -> (int, int) {
    let (wide, high) = (or_hundred(width) * 10, or_hundred(height) * 10);
    if on_its_side(orientation) {
        (high, wide)
    } else {
        (wide, high)
    }
}

/// The preview Immich measures faces on: the photo turned the way it is shown, ten times the size.
pub fn preview(width: Option<i64>, height: Option<i64>, orientation: Option<i64>) -> (size: (
    i64,
    i64,
))
    requires
        showable(width),
        showable(height),
    ensures
        (size.0 as int, size.1 as int) == preview_of(
            int_opt(width),
            int_opt(height),
            int_opt(orientation),
        ),
{
    let wide: i64 = match width {
        Some(n) => n * 10,
        None => 1000,
    };
    let high: i64 = match height {
        Some(n) => n * 10,
        None => 1000,
    };
    if sideways(orientation) {
        (high, wide)
    } else {
        (wide, high)
    }
}

/// A part of a side in millionths, as whole pixels: the nearest, half of one away from zero.
pub open spec fn pixel_of(part: int, side: int) -> int {
    if side >= 0 {
        (2 * part * side + 1_000_000) / 2_000_000
    } else {
        -((2 * part * -side + 1_000_000) / 2_000_000)
    }
}

fn pixel(part: i64, side: i64) -> (at: i64)
    requires
        0 <= part <= 1_000_000,
    ensures
        at == pixel_of(part as int, side as int),
{
    let positive = side >= 0;
    let length: i128 = if positive {
        side as i128
    } else {
        -(side as i128)
    };
    assert(0 <= part * length <= 1_000_000 * length) by (nonlinear_arith)
        requires
            0 <= part <= 1_000_000,
            0 <= length,
    ;
    assert(2 * part * length == 2 * (part * length)) by (nonlinear_arith);
    let nearest: i128 = (2 * (part as i128 * length) + 1_000_000) / 2_000_000;
    assert(0 <= nearest <= length);
    if positive {
        nearest as i64
    } else {
        -nearest as i64
    }
}

/// A face at a box on an asset, its corners given in millionths of the preview.
pub open spec fn face_on(
    asset: FakeAssetView,
    number: nat,
    person: Option<Seq<char>>,
    parts: Seq<i64>,
) -> FaceView {
    let (wide, high) = preview_of(asset.width, asset.height, asset.orientation);
    FaceView {
        id: "face-"@ + decimal(number),
        asset_id: asset.id,
        person_id: person,
        image_width: wide,
        image_height: high,
        x1: pixel_of(parts[0] as int, wide),
        y1: pixel_of(parts[1] as int, high),
        x2: pixel_of(parts[2] as int, wide),
        y2: pixel_of(parts[3] as int, high),
    }
}

/// The data with one more face, on the asset of a photo.
pub open spec fn with_face(
    data: DataView,
    rel_path: Seq<char>,
    person: Option<Seq<char>>,
    parts: Seq<i64>,
) -> DataView {
    let at = asset_at(data.assets, inside(rel_path));
    let asset = data.assets[at];
    let face = face_on(asset, faces_count(data.assets), person, parts);
    DataView {
        assets: data.assets.update(at, FakeAssetView { faces: asset.faces.push(face), ..asset }),
        ..data
    }
}

/// The data with the asset of a photo no longer there.
pub open spec fn with_offline(data: DataView, rel_path: Seq<char>) -> DataView {
    let at = asset_at(data.assets, inside(rel_path));
    DataView {
        assets: data.assets.update(at, FakeAssetView { offline: true, ..data.assets[at] }),
        ..data
    }
}

/// The data with the asset of a photo as wide as this.
pub open spec fn with_width(data: DataView, rel_path: Seq<char>, width: int) -> DataView {
    let at = asset_at(data.assets, inside(rel_path));
    DataView {
        assets: data.assets.update(at, FakeAssetView { width: Some(width), ..data.assets[at] }),
        ..data
    }
}

fn person(id: &str, name: &str, hidden: bool) -> (person: Person)
    ensures
        person@ == (PersonView { id: id@, name: name@, hidden }),
{
    Person { id: copy(id), name: copy(name), hidden }
}

/// The persons of the fake.
pub open spec fn everyone() -> Seq<PersonView> {
    seq![
        PersonView { id: "p-ben"@, name: "Ben"@, hidden: false },
        PersonView { id: "p-ann"@, name: "Ann"@, hidden: false },
        PersonView { id: "p-kira"@, name: "Kira"@, hidden: false },
        PersonView { id: "p-lena"@, name: "Lena Park"@, hidden: false },
        PersonView { id: "p-hidden"@, name: "Hidden Person"@, hidden: true },
        PersonView { id: "p-unnamed"@, name: ""@, hidden: false },
    ]
}

/// How Immich read one photo: its width, its height and its orientation.
#[derive(Debug, Clone, Copy, PartialEq, Eq, Structural)]
pub struct Seen {
    pub width: Option<i64>,
    pub height: Option<i64>,
    pub orientation: Option<i64>,
}

/// One photo of the stand-in library inside the fake.
pub open spec fn fake_of(index: int, seen: Seen) -> FakeAssetView {
    FakeAssetView {
        id: "asset-"@ + decimal(index as nat),
        path: inside(PATHS@[index]@),
        offline: false,
        width: int_opt(seen.width),
        height: int_opt(seen.height),
        orientation: int_opt(seen.orientation),
        faces: Seq::empty(),
    }
}

pub open spec fn bare_asset(id: Seq<char>, path: Seq<char>) -> FakeAssetView {
    FakeAssetView {
        id,
        path,
        offline: false,
        width: Some(16),
        height: Some(16),
        orientation: None,
        faces: Seq::empty(),
    }
}

/// Everything the fake has before a face is put on it: the photos of the stand-in library, one
/// that is gone from it and one that never was in it.
pub open spec fn photos_over(seen: Seq<Seen>) -> DataView {
    DataView {
        import_paths: seq![IMPORT@],
        people: everyone(),
        assets: Seq::new(seen.len(), |i: int| fake_of(i, seen[i])).push(
            bare_asset("asset-gone"@, inside(GONE@)),
        ).push(bare_asset("asset-elsewhere"@, "/upload/library/elsewhere.jpg"@)),
    }
}

/// Persons over the stand-in library: who is where.
pub open spec fn data_over(seen: Seq<Seen>) -> DataView {
    let data = photos_over(seen);
    let data = with_face(data, TURNED@, Some("p-ann"@), seq![62_500, 83_333, 312_500, 333_333]);
    let data = with_face(data, TWO@, Some("p-ann"@), seq![100_000, 100_000, 400_000, 500_000]);
    let data = with_face(data, TWO@, Some("p-ben"@), seq![600_000, 200_000, 900_000, 600_000]);
    let data = with_face(
        data,
        BEN_UNTAGGED@,
        Some("p-ben"@),
        seq![200_000, 200_000, 500_000, 600_000],
    );
    let data = with_face(data, BEN_UNTAGGED@, None, seq![600_000, 200_000, 800_000, 400_000]);
    let data = with_face(
        data,
        BEN_TAGGED@,
        Some("p-ben"@),
        seq![300_000, 300_000, 700_000, 800_000],
    );
    let data = with_face(data, KIRA@, Some("p-kira"@), seq![400_000, 100_000, 700_000, 500_000]);
    let data = with_face(data, KIRA@, Some("p-hidden"@), seq![50_000, 50_000, 200_000, 200_000]);
    let data = with_face(data, LENA@, Some("p-lena"@), seq![250_000, 250_000, 750_000, 750_000]);
    let data = with_face(data, OFFLINE@, Some("p-ben"@), seq![200_000, 200_000, 400_000, 400_000]);
    let data = with_offline(data, OFFLINE@);
    let data = with_face(data, RESIZED@, Some("p-ben"@), seq![200_000, 200_000, 400_000, 400_000]);
    let data = with_width(data, RESIZED@, 999);
    let data = with_face(data, GONE@, Some("p-ben"@), seq![200_000, 200_000, 400_000, 400_000]);
    let data = with_face(
        data,
        HIDDEN_ONLY@,
        Some("p-hidden"@),
        seq![200_000, 200_000, 400_000, 400_000],
    );
    with_face(data, UNNAMED_ONLY@, Some("p-unnamed"@), seq![200_000, 200_000, 400_000, 400_000])
}

/// Whether a side can be shown ten times its length.
pub open spec fn showable(side: Option<i64>) -> bool {
    side matches Some(n) ==> i64::MIN / 10 < n <= i64::MAX / 10
}

/// The asset an update touches stands where it stood, and so does every other.
proof fn lemma_asset_at(assets: Seq<FakeAssetView>, path: Seq<char>)
    ensures
        0 <= asset_at(assets, path) <= assets.len(),
        asset_at(assets, path) < assets.len() ==> assets[asset_at(assets, path)].path == path,
    decreases assets.len(),
{
    if assets.len() > 0 && assets[0].path != path {
        lemma_asset_at(assets.skip(1), path);
    }
}

proof fn lemma_asset_there(assets: Seq<FakeAssetView>, path: Seq<char>, i: int)
    requires
        0 <= i < assets.len(),
        assets[i].path == path,
    ensures
        asset_at(assets, path) < assets.len(),
    decreases assets.len(),
{
    if assets[0].path != path {
        assert(assets.skip(1)[i - 1] == assets[i]);
        lemma_asset_there(assets.skip(1), path, i - 1);
    }
}

proof fn lemma_faces_count_update(assets: Seq<FakeAssetView>, at: int, asset: FakeAssetView)
    requires
        0 <= at < assets.len(),
    ensures
        faces_count(assets.update(at, asset)) == faces_count(assets) - assets[at].faces.len()
            + asset.faces.len(),
    decreases assets.len(),
{
    let changed = assets.update(at, asset);
    if at == assets.len() - 1 {
        assert(changed.drop_last() =~= assets.drop_last());
    } else {
        assert(changed.drop_last() =~= assets.drop_last().update(at, asset));
        lemma_faces_count_update(assets.drop_last(), at, asset);
    }
}

proof fn lemma_no_faces(assets: Seq<FakeAssetView>)
    requires
        forall|i: int| 0 <= i < assets.len() ==> (#[trigger] assets[i]).faces.len() == 0,
    ensures
        faces_count(assets) == 0,
    decreases assets.len(),
{
    if assets.len() > 0 {
        assert forall|i: int| 0 <= i < assets.drop_last().len() implies (
        #[trigger] assets.drop_last()[i]).faces.len() == 0 by {
            assert(assets.drop_last()[i] == assets[i]);
        }
        lemma_no_faces(assets.drop_last());
    }
}

/// Whether the assets lie where they do in the fake over so many photos of the stand-in library,
/// can be shown, and have no more faces than this.
pub open spec fn laid_out(data: Data, photos: int, most: int) -> bool {
    &&& data.assets@.len() == photos + 2
    &&& forall|i: int|
        0 <= i < photos ==> (#[trigger] data.assets@[i]).path@ == inside(PATHS@[i]@)
    &&& data.assets@[photos].path@ == inside(GONE@)
    &&& forall|i: int|
        0 <= i < photos + 2 ==> showable((#[trigger] data.assets@[i]).width) && showable(
            data.assets@[i].height,
        )
    &&& faces_count(data@.assets) <= most
}

/// An asset that is changed where it lies leaves the layout as it was.
proof fn lemma_same_layout(before: Data, after: Data, at: int)
    requires
        0 <= at < before.assets@.len(),
        before.assets@.len() == 41,
        after.assets@.len() == 41,
        forall|i: int| 0 <= i < 39 ==> (#[trigger] before.assets@[i]).path@ == inside(PATHS@[i]@),
        before.assets@[39].path@ == inside(GONE@),
        forall|i: int|
            0 <= i < 41 ==> showable((#[trigger] before.assets@[i]).width) && showable(
                before.assets@[i].height,
            ),
        after@.assets == before@.assets.update(at, after@.assets[at]),
        after@.assets[at].path == before@.assets[at].path,
        showable(after.assets@[at].width),
        after@.assets[at].height == before@.assets[at].height,
    ensures
        forall|i: int| 0 <= i < 39 ==> (#[trigger] after.assets@[i]).path@ == inside(PATHS@[i]@),
        after.assets@[39].path@ == inside(GONE@),
        forall|i: int|
            0 <= i < 41 ==> showable((#[trigger] after.assets@[i]).width) && showable(
                after.assets@[i].height,
            ),
{
    assert forall|i: int| 0 <= i < 41 implies (#[trigger] after.assets@[i]).path@
        == before.assets@[i].path@ && showable(after.assets@[i].width) && showable(
        after.assets@[i].height,
    ) by {
        assert(after@.assets[i] == after.assets@[i]@);
        assert(before@.assets[i] == before.assets@[i]@);
        assert(int_opt(after.assets@[i].height) == int_opt(before.assets@[i].height));
        if i != at {
            assert(int_opt(after.assets@[i].width) == int_opt(before.assets@[i].width));
        }
    }
}

pub open spec fn text_opt(text: Option<&str>) -> Option<Seq<char>> {
    match text {
        Some(text) => Some(text@),
        None => None,
    }
}

fn no_faces(id: String, path: String, seen: Seen) -> (asset: FakeAsset)
    ensures
        asset@ == (FakeAssetView {
            id: id@,
            path: path@,
            offline: false,
            width: int_opt(seen.width),
            height: int_opt(seen.height),
            orientation: int_opt(seen.orientation),
            faces: Seq::empty(),
        }),
{
    let asset = FakeAsset {
        id,
        path,
        offline: false,
        width: seen.width,
        height: seen.height,
        orientation: seen.orientation,
        faces: Vec::new(),
    };
    assert(asset@.faces =~= Seq::empty());
    asset
}

fn inside_path(rel_path: &str) -> (path: String)
    ensures
        path@ == inside(rel_path@),
{
    copy(IMPORT).concat("/").concat(rel_path)
}

impl Data {
    /// Persons over the stand-in library, each photo's size and orientation as they were read from
    /// the file.
    pub fn over(seen: &[Seen]) -> (data: Data)
        requires
            seen@.len() == PATHS@.len(),
            forall|i: int|
                0 <= i < seen@.len() ==> showable((#[trigger] seen@[i]).width) && showable(
                    seen@[i].height,
                ),
        ensures
            data@ == data_over(seen@),
    {
        let mut data = Data::of_photos(seen);
        data.put_face(TURNED, 6, 1, Some("p-ann"), [62_500, 83_333, 312_500, 333_333]);
        data.put_face(TWO, 8, 2, Some("p-ann"), [100_000, 100_000, 400_000, 500_000]);
        data.put_face(TWO, 8, 3, Some("p-ben"), [600_000, 200_000, 900_000, 600_000]);
        data.put_face(BEN_UNTAGGED, 1, 4, Some("p-ben"), [200_000, 200_000, 500_000, 600_000]);
        data.put_face(BEN_UNTAGGED, 1, 5, None, [600_000, 200_000, 800_000, 400_000]);
        data.put_face(BEN_TAGGED, 2, 6, Some("p-ben"), [300_000, 300_000, 700_000, 800_000]);
        data.put_face(KIRA, 9, 7, Some("p-kira"), [400_000, 100_000, 700_000, 500_000]);
        data.put_face(KIRA, 9, 8, Some("p-hidden"), [50_000, 50_000, 200_000, 200_000]);
        data.put_face(LENA, 4, 9, Some("p-lena"), [250_000, 250_000, 750_000, 750_000]);
        data.put_face(OFFLINE, 12, 10, Some("p-ben"), [200_000, 200_000, 400_000, 400_000]);
        data.set_offline(OFFLINE, 12);
        data.put_face(RESIZED, 15, 11, Some("p-ben"), [200_000, 200_000, 400_000, 400_000]);
        data.set_width(RESIZED, 15, 999);
        data.put_face(GONE, 39, 12, Some("p-ben"), [200_000, 200_000, 400_000, 400_000]);
        data.put_face(HIDDEN_ONLY, 35, 13, Some("p-hidden"), [200_000, 200_000, 400_000, 400_000]);
        data.put_face(UNNAMED_ONLY, 36, 14, Some("p-unnamed"), [200_000, 200_000, 400_000, 400_000]);
        data
    }

    /// The photos of the stand-in library, one that is gone from it and one that never was in it.
    fn of_photos(seen: &[Seen]) -> (data: Data)
        requires
            seen@.len() == PATHS@.len(),
            forall|i: int|
                0 <= i < seen@.len() ==> showable((#[trigger] seen@[i]).width) && showable(
                    seen@[i].height,
                ),
        ensures
            data@ == photos_over(seen@),
            laid_out(data, 39, 0),
    {
        let mut import_paths: Vec<String> = Vec::new();
        import_paths.push(copy(IMPORT));
        assert(views(import_paths@) =~= seq![IMPORT@]);
        let mut people: Vec<Person> = Vec::new();
        people.push(person("p-ben", "Ben", false));
        people.push(person("p-ann", "Ann", false));
        people.push(person("p-kira", "Kira", false));
        people.push(person("p-lena", "Lena Park", false));
        people.push(person("p-hidden", "Hidden Person", true));
        people.push(person("p-unnamed", "", false));
        assert(person_views(people@) =~= everyone());
        let paths = PATHS;
        let ghost goal = Seq::new(seen@.len(), |i: int| fake_of(i, seen@[i]));
        let mut assets: Vec<FakeAsset> = Vec::new();
        for i in 0..seen.len()
            invariant
                paths@ == PATHS@,
                seen@.len() <= paths@.len(),
                goal == Seq::new(seen@.len(), |i: int| fake_of(i, seen@[i])),
                fake_views(assets@) == goal.take(i as int),
        {
            let ghost before = fake_views(assets@);
            let id = copy("asset-").concat(&decimal_of(i as u64));
            assets.push(no_faces(id, inside_path(paths[i]), seen[i]));
            assert(fake_views(assets@) =~= before.push(goal[i as int]));
            assert(goal.take(i + 1) =~= before.push(goal[i as int]));
        }
        assert(goal.take(seen@.len() as int) =~= goal);
        let small = Seen { width: Some(16), height: Some(16), orientation: None };
        assets.push(no_faces(copy("asset-gone"), inside_path(GONE), small));
        assets.push(
            no_faces(copy("asset-elsewhere"), copy("/upload/library/elsewhere.jpg"), small),
        );
        assert(fake_views(assets@) =~= photos_over(seen@).assets);
        let data = Data { import_paths, people, assets };
        proof {
            let all = photos_over(seen@).assets;
            assert forall|i: int| 0 <= i < all.len() implies (#[trigger] all[i]).faces.len()
                == 0 by {}
            lemma_no_faces(all);
            assert forall|i: int| 0 <= i < 39 implies (#[trigger] data.assets@[i]).path@ == inside(
                PATHS@[i]@,
            ) by {
                assert(data.assets@[i]@ == all[i]);
            }
            assert(data.assets@[39]@ == all[39]);
            assert forall|i: int| 0 <= i < 41 implies showable((#[trigger] data.assets@[i]).width)
                && showable(data.assets@[i].height) by {
                assert(data.assets@[i]@ == all[i]);
                if i < 39 {
                    assert(int_opt(data.assets@[i].width) == int_opt(seen@[i].width));
                    assert(int_opt(data.assets@[i].height) == int_opt(seen@[i].height));
                }
            }
        }
        data
    }

    /// A face of this person on the asset of a photo, which is at this place or before it.
    fn put_face(
        &mut self,
        rel_path: &str,
        at: usize,
        most: usize,
        person: Option<&str>,
        parts: [i64; 4],
    )
        requires
            1 <= most <= 14,
            laid_out(*old(self), 39, most - 1),
            at <= 39,
            old(self).assets@[at as int].path@ == inside(rel_path@),
            forall|i: int| 0 <= i < 4 ==> 0 <= #[trigger] parts@[i] <= 1_000_000,
        ensures
            laid_out(*final(self), 39, most as int),
            final(self)@ == with_face(old(self)@, rel_path@, text_opt(person), parts@),
    {
        let ghost before = *self;
        proof {
            assert(before@.assets[at as int] == before.assets@[at as int]@);
            lemma_asset_there(before@.assets, inside(rel_path@), at as int);
            lemma_asset_at(before@.assets, inside(rel_path@));
        }
        self.add_face(rel_path, person, parts);
        proof {
            let place = asset_at(before@.assets, inside(rel_path@));
            lemma_faces_count_update(before@.assets, place, self@.assets[place]);
            lemma_same_layout(before, *self, place);
        }
    }

    fn set_offline(&mut self, rel_path: &str, at: usize)
        requires
            laid_out(*old(self), 39, 10),
            at <= 39,
            old(self).assets@[at as int].path@ == inside(rel_path@),
        ensures
            laid_out(*final(self), 39, 10),
            final(self)@ == with_offline(old(self)@, rel_path@),
    {
        let ghost before = *self;
        proof {
            assert(before@.assets[at as int] == before.assets@[at as int]@);
            lemma_asset_there(before@.assets, inside(rel_path@), at as int);
            lemma_asset_at(before@.assets, inside(rel_path@));
        }
        let place: usize = self.asset_place(rel_path);
        self.assets[place].offline = true;
        proof {
            assert(self@.assets =~= with_offline(before@, rel_path@).assets);
            lemma_faces_count_update(before@.assets, place as int, self@.assets[place as int]);
            lemma_same_layout(before, *self, place as int);
        }
    }

    fn set_width(&mut self, rel_path: &str, at: usize, width: i64)
        requires
            laid_out(*old(self), 39, 11),
            at <= 39,
            0 <= width <= 1000,
            old(self).assets@[at as int].path@ == inside(rel_path@),
        ensures
            laid_out(*final(self), 39, 11),
            final(self)@ == with_width(old(self)@, rel_path@, width as int),
    {
        let ghost before = *self;
        proof {
            assert(before@.assets[at as int] == before.assets@[at as int]@);
            lemma_asset_there(before@.assets, inside(rel_path@), at as int);
            lemma_asset_at(before@.assets, inside(rel_path@));
        }
        let place: usize = self.asset_place(rel_path);
        self.assets[place].width = Some(width);
        proof {
            assert(self@.assets =~= with_width(before@, rel_path@, width as int).assets);
            lemma_faces_count_update(before@.assets, place as int, self@.assets[place as int]);
            lemma_same_layout(before, *self, place as int);
        }
    }

    /// The place of the asset of a photo, or the number of assets where there is none.
    pub fn asset_place(&self, rel_path: &str) -> (at: usize)
        ensures
            at == asset_at(self@.assets, inside(rel_path@)),
            at <= self.assets@.len(),
    {
        let path = inside_path(rel_path);
        let ghost all = self@.assets;
        assert(all.skip(0) =~= all);
        for i in 0..self.assets.len()
            invariant
                path@ == inside(rel_path@),
                all == self@.assets,
                asset_at(all, path@) == i + asset_at(all.skip(i as int), path@),
        {
            assert(all.skip(i as int)[0] == self.assets@[i as int]@);
            assert(all.skip(i as int).skip(1) =~= all.skip(i + 1));
            if same(&self.assets[i].path, &path) {
                return i;
            }
        }
        self.assets.len()
    }

    /// The asset of a photo.
    pub fn asset(&mut self, rel_path: &str) -> (asset: &mut FakeAsset)
        requires
            asset_at(old(self)@.assets, inside(rel_path@)) < old(self).assets@.len(),
        ensures
            ({
                let at = asset_at(old(self)@.assets, inside(rel_path@));
                &&& *asset == old(self).assets@[at]
                &&& final(self).assets@ == old(self).assets@.update(at, *final(asset))
                &&& final(self).people == old(self).people
                &&& final(self).import_paths == old(self).import_paths
            }),
    {
        let at: usize = self.asset_place(rel_path);
        &mut self.assets[at]
    }

    fn count_faces(&self) -> (count: u128)
        ensures
            count == faces_count(self@.assets),
    {
        let ghost all = self@.assets;
        let mut count: u128 = 0;
        assert(all.take(0) =~= Seq::empty());
        for i in 0..self.assets.len()
            invariant
                all == self@.assets,
                count == faces_count(all.take(i as int)),
                count <= 0xffff_ffff_ffff_ffff * i,
        {
            assert(all.take(i + 1).drop_last() =~= all.take(i as int));
            assert(all.take(i + 1).last() == self.assets@[i as int]@);
            assert(self.assets@[i as int]@.faces.len() == self.assets@[i as int].faces@.len());
            assert(0xffff_ffff_ffff_ffff * i <= 0xffff_ffff_ffff_ffff * 0xffff_ffff_ffff_ffff)
                by (nonlinear_arith)
                requires
                    i <= 0xffff_ffff_ffff_ffff,
            ;
            let more: usize = self.assets[i].faces.len();
            assert(0xffff_ffff_ffff_ffff * (i + 1) == 0xffff_ffff_ffff_ffff * i
                + 0xffff_ffff_ffff_ffff) by (nonlinear_arith);
            count = count + more as u128;
        }
        assert(all.take(self.assets@.len() as int) =~= all);
        count
    }

    /// A face of this person on the asset, at a box in millionths of the preview.
    pub fn add_face(&mut self, rel_path: &str, person: Option<&str>, parts: [i64; 4])
        requires
            asset_at(old(self)@.assets, inside(rel_path@)) < old(self).assets@.len(),
            faces_count(old(self)@.assets) <= u64::MAX,
            forall|i: int| 0 <= i < 4 ==> 0 <= #[trigger] parts@[i] <= 1_000_000,
            ({
                let asset = old(self).assets@[asset_at(old(self)@.assets, inside(rel_path@))];
                showable(asset.width) && showable(asset.height)
            }),
        ensures
            final(self)@ == with_face(old(self)@, rel_path@, text_opt(person), parts@),
    {
        let ghost before = self@;
        let at: usize = self.asset_place(rel_path);
        let count: u128 = self.count_faces();
        assert(before.assets[at as int] == self.assets@[at as int]@);
        let (wide, high) = preview(
            self.assets[at].width,
            self.assets[at].height,
            self.assets[at].orientation,
        );
        let person_id = match person {
            Some(person) => Some(copy(person)),
            None => None,
        };
        let face = Face {
            id: copy("face-").concat(&decimal_of(count as u64)),
            asset_id: self.assets[at].id.clone(),
            person_id,
            image_width: wide,
            image_height: high,
            x1: pixel(parts[0], wide),
            y1: pixel(parts[1], high),
            x2: pixel(parts[2], wide),
            y2: pixel(parts[3], high),
        };
        let ghost one = face@;
        let ghost had = self.assets@[at as int]@.faces;
        self.assets[at].faces.push(face);
        assert(self.assets@[at as int]@.faces =~= had.push(one));
        assert(self@.assets =~= before.assets.update(
            at as int,
            FakeAssetView { faces: had.push(one), ..before.assets[at as int] },
        ));
    }

    /// Gives a person another name.
    pub fn rename(&mut self, person: &str, name: &str)
        ensures
            final(self)@ == (DataView {
                people: old(self)@.people.map_values(
                    |one: PersonView|
                        if one.id == person@ {
                            PersonView { name: name@, ..one }
                        } else {
                            one
                        },
                ),
                ..old(self)@
            }),
    {
        let ghost before = self.people@;
        let ghost start = *self;
        let n: usize = self.people.len();
        for i in 0..n
            invariant
                n == before.len(),
                self.people@.len() == n,
                self.assets == start.assets,
                self.import_paths == start.import_paths,
                forall|j: int| i <= j < n ==> #[trigger] self.people@[j] == before[j],
                forall|j: int|
                    0 <= j < i ==> (#[trigger] self.people@[j])@ == if before[j]@.id == person@ {
                        PersonView { name: name@, ..before[j]@ }
                    } else {
                        before[j]@
                    },
        {
            if same(&self.people[i].id, person) {
                self.people[i].name = copy(name);
            }
        }
        proof {
            assert(self@.people =~= start@.people.map_values(
                |one: PersonView|
                    if one.id == person@ {
                        PersonView { name: name@, ..one }
                    } else {
                        one
                    },
            ));
        }
    }
}

// ---- What the fake answers ---------------------------------------------------------------------

fn object(fields: Vec<(String, Json)>) -> (json: Json)
    ensures
        json.tree() == Tree::Object(field_trees(fields@)),
{
    Json::Object(fields)
}

pub open spec fn first_value(pairs: Seq<Seq<char>>, name: Seq<char>) -> Option<Seq<char>>
    decreases pairs.len(),
{
    if pairs.len() == 0 {
        None
    } else {
        match cut(pairs[0], '=') {
            Some((key, value)) => if key == name {
                Some(value)
            } else {
                first_value(pairs.skip(1), name)
            },
            None => first_value(pairs.skip(1), name),
        }
    }
}

/// The value a target gives a name in its query.
pub open spec fn queried(target: Seq<char>, name: Seq<char>) -> Option<Seq<char>> {
    match cut(target, '?') {
        None => None,
        Some((_, query)) => first_value(split(query, '&'), name),
    }
}

fn query(target: &str, name: &str) -> (value: Option<String>)
    ensures
        view_opt(value) == queried(target@, name@),
{
    let rest = match split_once(target, '?') {
        Some((_, rest)) => rest,
        None => return None,
    };
    let pairs = split_at_each(&rest, '&');
    let ghost all = split(rest@, '&');
    assert(all.skip(0) =~= all);
    for i in 0..pairs.len()
        invariant
            views(pairs@) == all,
            first_value(all, name@) == first_value(all.skip(i as int), name@),
            queried(target@, name@) == first_value(all, name@),
    {
        assert(all.skip(i as int)[0] == pairs@[i as int]@);
        assert(all.skip(i as int).skip(1) =~= all.skip(i + 1));
        if let Some((key, value)) = split_once(&pairs[i], '=') {
            if same(&key, name) {
                return Some(value);
            }
        }
    }
    None
}

/// The natural number a text is, a plus before it being no matter.
pub open spec fn count_in(text: Seq<char>) -> Option<nat> {
    let digits = if text.len() > 0 && text[0] == '+' {
        text.skip(1)
    } else {
        text
    };
    natural(digits, u64::MAX as nat)
}

pub open spec fn count_or(text: Option<Seq<char>>, other: nat) -> nat {
    match text {
        Some(text) => match count_in(text) {
            Some(n) => n,
            None => other,
        },
        None => other,
    }
}

fn read_count(text: &str) -> (number: Option<u64>)
    ensures
        match number {
            Some(n) => count_in(text@) == Some(n as nat),
            None => count_in(text@) is None,
        },
{
    let list = chars(text);
    let from: usize = if list.len() > 0 && list[0] == '+' {
        1
    } else {
        0
    };
    let digits = chars(&crate::text::part(&list, from, list.len()));
    proof {
        assert(list@.skip(0) =~= list@);
        assert(digits@ =~= list@.skip(from as int));
    }
    read_natural(&digits, u64::MAX)
}

fn count_given(text: Option<String>, other: u64) -> (n: u64)
    ensures
        n == count_or(view_opt(text), other as nat),
{
    match text {
        Some(text) => match read_count(&text) {
            Some(n) => n,
            None => other,
        },
        None => other,
    }
}

/// Whether a page can be counted to: there is no page before the first.
pub open spec fn countable(page: nat, size: nat) -> bool {
    1 <= page && page * size <= u64::MAX
}

pub open spec fn least(a: nat, b: nat) -> nat {
    if a < b {
        a
    } else {
        b
    }
}

/// The part of a list that a page shows.
pub open spec fn paged<A>(list: Seq<A>, page: nat, size: nat) -> Seq<A> {
    let from = least(list.len(), ((page - 1) * size) as nat);
    let to = least(list.len(), page * size);
    list.subrange(from as int, to as int)
}

fn bounds(len: usize, page: u64, size: u64) -> (bounds: Option<(usize, usize, bool)>)
    ensures
        match bounds {
            Some((from, to, more)) => {
                &&& countable(page as nat, size as nat)
                &&& from == least(len as nat, ((page - 1) * size) as nat)
                &&& to == least(len as nat, page as nat * size as nat)
                &&& from <= to <= len
                &&& more == ((page as nat * size as nat) < len)
            },
            None => !countable(page as nat, size as nat),
        },
{
    if page == 0 {
        return None;
    }
    let end: u64 = match page.checked_mul(size) {
        Some(end) => end,
        None => {
            assert(page as nat * size as nat > u64::MAX);
            return None;
        },
    };
    assert((page - 1) * size == page * size - size) by (nonlinear_arith);
    assert(page * size >= size) by (nonlinear_arith)
        requires
            page >= 1,
            size >= 0,
    ;
    let start: u64 = end - size;
    let from: usize = if (len as u64) < start {
        len
    } else {
        start as usize
    };
    let to: usize = if (len as u64) < end {
        len
    } else {
        end as usize
    };
    Some((from, to, end < len as u64))
}

pub open spec fn person_tree(person: PersonView) -> Tree {
    Tree::Object(
        seq![
            ("id"@, Tree::Text(person.id)),
            ("isHidden"@, Tree::Bool(person.hidden)),
            ("name"@, Tree::Text(person.name)),
        ],
    )
}

fn person_json(person: &Person) -> (json: Json)
    ensures
        json.tree() == person_tree(person@),
{
    let mut fields: Vec<(String, Json)> = Vec::new();
    fields.push((copy("id"), Json::Text(person.id.clone())));
    fields.push((copy("isHidden"), Json::Bool(person.hidden)));
    fields.push((copy("name"), Json::Text(person.name.clone())));
    proof {
        lemma_field_trees(fields@);
        assert(field_trees(fields@) =~= person_tree(person@)->Object_0);
    }
    object(fields)
}

pub open spec fn int_tree(n: Option<int>) -> Tree {
    match n {
        Some(n) => Tree::Int(n),
        None => Tree::Null,
    }
}

fn int_json(n: Option<i64>) -> (json: Json)
    ensures
        json.tree() == int_tree(int_opt(n)),
{
    match n {
        Some(n) => Json::Int(n),
        None => Json::Null,
    }
}

pub open spec fn text_tree(text: Option<Seq<char>>) -> Tree {
    match text {
        Some(text) => Tree::Text(text),
        None => Tree::Null,
    }
}

/// The persons of an asset's faces, one after another each once.
pub open spec fn persons_of(faces: Seq<FaceView>) -> Seq<Seq<char>>
    decreases faces.len(),
{
    if faces.len() == 0 {
        Seq::empty()
    } else {
        let before = persons_of(faces.drop_last());
        match faces.last().person_id {
            Some(id) => if before.len() > 0 && before.last() == id {
                before
            } else {
                before.push(id)
            },
            None => before,
        }
    }
}

pub open spec fn id_tree(id: Seq<char>) -> Tree {
    Tree::Object(seq![("id"@, Tree::Text(id))])
}

pub open spec fn exif_tree(asset: FakeAssetView) -> Tree {
    Tree::Object(
        seq![
            ("exifImageHeight"@, int_tree(asset.height)),
            ("exifImageWidth"@, int_tree(asset.width)),
            (
                "orientation"@,
                match asset.orientation {
                    Some(way) => Tree::Text(signed(way)),
                    None => Tree::Null,
                },
            ),
        ],
    )
}

pub open spec fn item_tree(asset: FakeAssetView) -> Tree {
    Tree::Object(
        seq![
            ("exifInfo"@, exif_tree(asset)),
            ("id"@, Tree::Text(asset.id)),
            ("isOffline"@, Tree::Bool(asset.offline)),
            ("originalPath"@, Tree::Text(asset.path)),
            (
                "people"@,
                Tree::List(persons_of(asset.faces).map_values(|id: Seq<char>| id_tree(id))),
            ),
        ],
    )
}

fn exif_json(asset: &FakeAsset) -> (json: Json)
    ensures
        json.tree() == exif_tree(asset@),
{
    let mut fields: Vec<(String, Json)> = Vec::new();
    fields.push((copy("exifImageHeight"), int_json(asset.height)));
    fields.push((copy("exifImageWidth"), int_json(asset.width)));
    let way = match asset.orientation {
        Some(way) => Json::Text(signed_of(way)),
        None => Json::Null,
    };
    fields.push((copy("orientation"), way));
    proof {
        lemma_field_trees(fields@);
        assert(field_trees(fields@) =~= exif_tree(asset@)->Object_0);
    }
    object(fields)
}

fn ids_of(faces: &[Face]) -> (ids: Vec<String>)
    ensures
        views(ids@) == persons_of(face_views(faces@)),
{
    let ghost all = face_views(faces@);
    let mut ids: Vec<String> = Vec::new();
    assert(all.take(0) =~= Seq::empty());
    assert(views(ids@) =~= Seq::empty());
    for i in 0..faces.len()
        invariant
            all == face_views(faces@),
            views(ids@) == persons_of(all.take(i as int)),
    {
        let ghost before = views(ids@);
        assert(all.take(i + 1).drop_last() =~= all.take(i as int));
        assert(all.take(i + 1).last() == faces@[i as int]@);
        assert(before.len() == ids@.len());
        if let Some(id) = &faces[i].person_id {
            let again = ids.len() > 0 && same(&ids[ids.len() - 1], id);
            if !again {
                ids.push(id.clone());
                assert(views(ids@) =~= before.push(id@));
            }
        }
    }
    assert(all.take(faces@.len() as int) =~= all);
    ids
}

fn id_list(ids: &[String]) -> (json: Json)
    ensures
        json.tree() == Tree::List(views(ids@).map_values(|id: Seq<char>| id_tree(id))),
{
    let ghost goal = views(ids@).map_values(|id: Seq<char>| id_tree(id));
    let mut list: Vec<Json> = Vec::new();
    assert(trees(list@) =~= goal.take(0));
    for i in 0..ids.len()
        invariant
            goal == views(ids@).map_values(|id: Seq<char>| id_tree(id)),
            trees(list@) == goal.take(i as int),
    {
        let mut fields: Vec<(String, Json)> = Vec::new();
        fields.push((copy("id"), Json::Text(ids[i].clone())));
        proof {
            lemma_field_trees(fields@);
            assert(field_trees(fields@) =~= id_tree(ids@[i as int]@)->Object_0);
        }
        let one = object(fields);
        proof {
            lemma_trees_push(list@, one);
            assert(goal.take(i + 1) =~= goal.take(i as int).push(goal[i as int]));
        }
        list.push(one);
    }
    assert(goal.take(ids@.len() as int) =~= goal);
    Json::List(list)
}

fn item_json(asset: &FakeAsset) -> (json: Json)
    ensures
        json.tree() == item_tree(asset@),
{
    let mut fields: Vec<(String, Json)> = Vec::new();
    fields.push((copy("exifInfo"), exif_json(asset)));
    fields.push((copy("id"), Json::Text(asset.id.clone())));
    fields.push((copy("isOffline"), Json::Bool(asset.offline)));
    fields.push((copy("originalPath"), Json::Text(asset.path.clone())));
    let ids = ids_of(&asset.faces);
    fields.push((copy("people"), id_list(&ids)));
    proof {
        lemma_field_trees(fields@);
        assert(field_trees(fields@) =~= item_tree(asset@)->Object_0);
    }
    object(fields)
}

pub open spec fn first_person(people: Seq<PersonView>, id: Seq<char>) -> Option<PersonView>
    decreases people.len(),
{
    if people.len() == 0 {
        None
    } else if people[0].id == id {
        Some(people[0])
    } else {
        first_person(people.skip(1), id)
    }
}

pub open spec fn face_tree(face: FaceView, people: Seq<PersonView>) -> Tree {
    Tree::Object(
        seq![
            ("boundingBoxX1"@, Tree::Int(face.x1)),
            ("boundingBoxX2"@, Tree::Int(face.x2)),
            ("boundingBoxY1"@, Tree::Int(face.y1)),
            ("boundingBoxY2"@, Tree::Int(face.y2)),
            ("id"@, Tree::Text(face.id)),
            ("imageHeight"@, Tree::Int(face.image_height)),
            ("imageWidth"@, Tree::Int(face.image_width)),
            (
                "person"@,
                match face.person_id {
                    Some(id) => match first_person(people, id) {
                        Some(person) => person_tree(person),
                        None => Tree::Null,
                    },
                    None => Tree::Null,
                },
            ),
            ("sourceType"@, Tree::Text("machine-learning"@)),
        ],
    )
}

fn find_person<'a>(people: &'a [Person], id: &str) -> (person: Option<&'a Person>)
    ensures
        match person {
            Some(person) => first_person(person_views(people@), id@) == Some(person@),
            None => first_person(person_views(people@), id@) is None,
        },
{
    let ghost all = person_views(people@);
    assert(all.skip(0) =~= all);
    for i in 0..people.len()
        invariant
            all == person_views(people@),
            first_person(all, id@) == first_person(all.skip(i as int), id@),
    {
        assert(all.skip(i as int)[0] == people@[i as int]@);
        assert(all.skip(i as int).skip(1) =~= all.skip(i + 1));
        if same(&people[i].id, id) {
            return Some(&people[i]);
        }
    }
    None
}

fn face_json(face: &Face, people: &[Person]) -> (json: Json)
    ensures
        json.tree() == face_tree(face@, person_views(people@)),
{
    let person = match &face.person_id {
        Some(id) => match find_person(people, id) {
            Some(person) => person_json(person),
            None => Json::Null,
        },
        None => Json::Null,
    };
    let mut fields: Vec<(String, Json)> = Vec::new();
    fields.push((copy("boundingBoxX1"), Json::Int(face.x1)));
    fields.push((copy("boundingBoxX2"), Json::Int(face.x2)));
    fields.push((copy("boundingBoxY1"), Json::Int(face.y1)));
    fields.push((copy("boundingBoxY2"), Json::Int(face.y2)));
    fields.push((copy("id"), Json::Text(face.id.clone())));
    fields.push((copy("imageHeight"), Json::Int(face.image_height)));
    fields.push((copy("imageWidth"), Json::Int(face.image_width)));
    fields.push((copy("person"), person));
    fields.push((copy("sourceType"), Json::Text(copy("machine-learning"))));
    proof {
        lemma_field_trees(fields@);
        assert(field_trees(fields@) =~= face_tree(face@, person_views(people@))->Object_0);
    }
    object(fields)
}

pub open spec fn message(text: Seq<char>) -> Tree {
    Tree::Object(seq![("message"@, Tree::Text(text))])
}

fn message_json(text: &str) -> (json: Json)
    ensures
        json.tree() == message(text@),
{
    let mut fields: Vec<(String, Json)> = Vec::new();
    fields.push((copy("message"), Json::Text(copy(text))));
    proof {
        lemma_field_trees(fields@);
        assert(field_trees(fields@) =~= message(text@)->Object_0);
    }
    object(fields)
}

pub open spec fn libraries_reply(data: DataView) -> Tree {
    Tree::List(
        seq![
            Tree::Object(
                seq![
                    ("id"@, Tree::Text("library"@)),
                    (
                        "importPaths"@,
                        Tree::List(data.import_paths.map_values(|path: Seq<char>| Tree::Text(path))),
                    ),
                    ("name"@, Tree::Text("Photos"@)),
                ],
            ),
        ],
    )
}

fn libraries_json(data: &Data) -> (json: Json)
    ensures
        json.tree() == libraries_reply(data@),
{
    let mut fields: Vec<(String, Json)> = Vec::new();
    fields.push((copy("id"), Json::Text(copy("library"))));
    fields.push((copy("importPaths"), texts_json(&data.import_paths)));
    fields.push((copy("name"), Json::Text(copy("Photos"))));
    let mut list: Vec<Json> = Vec::new();
    proof {
        lemma_field_trees(fields@);
        let goal = libraries_reply(data@)->List_0[0]->Object_0;
        assert(field_trees(fields@) =~= goal);
    }
    list.push(object(fields));
    proof {
        lemma_trees(list@);
        assert(trees(list@) =~= libraries_reply(data@)->List_0);
    }
    Json::List(list)
}

pub open spec fn people_reply(data: DataView, page: nat, size: nat) -> Tree {
    Tree::Object(
        seq![
            ("hasNextPage"@, Tree::Bool(page * size < data.people.len())),
            (
                "people"@,
                Tree::List(
                    paged(data.people, page, size).map_values(
                        |person: PersonView| person_tree(person),
                    ),
                ),
            ),
            ("total"@, Tree::Int(data.people.len() as int)),
        ],
    )
}

fn people_json(data: &Data, page: u64, size: u64) -> (json: Option<Json>)
    ensures
        match json {
            Some(json) => countable(page as nat, size as nat) && json.tree() == people_reply(
                data@,
                page as nat,
                size as nat,
            ),
            None => !countable(page as nat, size as nat),
        },
{
    assert(data@.people.len() == data.people@.len());
    let (from, to, more) = match bounds(data.people.len(), page, size) {
        Some(bounds) => bounds,
        None => return None,
    };
    let ghost shown = paged(data@.people, page as nat, size as nat);
    let ghost goal = shown.map_values(|person: PersonView| person_tree(person));
    let mut list: Vec<Json> = Vec::new();
    assert(trees(list@) =~= goal.take(0));
    for i in from..to
        invariant
            from <= to <= data.people@.len(),
            shown == data@.people.subrange(from as int, to as int),
            goal == shown.map_values(|person: PersonView| person_tree(person)),
            trees(list@) == goal.take(i - from),
    {
        assert(shown[i - from] == data.people@[i as int]@);
        let one = person_json(&data.people[i]);
        proof {
            lemma_trees_push(list@, one);
            assert(goal.take(i + 1 - from) =~= goal.take(i - from).push(goal[i - from]));
        }
        list.push(one);
    }
    assert(goal.take(to - from) =~= goal);
    let mut fields: Vec<(String, Json)> = Vec::new();
    fields.push((copy("hasNextPage"), Json::Bool(more)));
    fields.push((copy("people"), Json::List(list)));
    fields.push((copy("total"), Json::Nat(data.people.len() as u64)));
    proof {
        lemma_field_trees(fields@);
        assert(field_trees(fields@) =~= people_reply(
            data@,
            page as nat,
            size as nat,
        )->Object_0);
    }
    Some(object(fields))
}

pub open spec fn assets_reply(data: DataView, page: nat, size: nat) -> Tree {
    Tree::Object(
        seq![
            (
                "assets"@,
                Tree::Object(
                    seq![
                        (
                            "items"@,
                            Tree::List(
                                paged(data.assets, page, size).map_values(
                                    |asset: FakeAssetView| item_tree(asset),
                                ),
                            ),
                        ),
                        (
                            "nextPage"@,
                            if page * size < data.assets.len() {
                                Tree::Text(decimal(page + 1))
                            } else {
                                Tree::Null
                            },
                        ),
                        ("total"@, Tree::Int(data.assets.len() as int)),
                    ],
                ),
            ),
        ],
    )
}

/// Whether a page of so many can be shown: it can be counted to, and so can the one behind it where
/// there is one.
pub open spec fn showable_page(len: nat, page: nat, size: nat) -> bool {
    countable(page, size) && (page * size < len ==> page < u64::MAX)
}

fn assets_json(data: &Data, page: u64, size: u64) -> (json: Option<Json>)
    ensures
        match json {
            Some(json) => showable_page(data@.assets.len(), page as nat, size as nat)
                && json.tree() == assets_reply(data@, page as nat, size as nat),
            None => !showable_page(data@.assets.len(), page as nat, size as nat),
        },
{
    assert(data@.assets.len() == data.assets@.len());
    let (from, to, more) = match bounds(data.assets.len(), page, size) {
        Some(bounds) => bounds,
        None => return None,
    };
    if more && page == u64::MAX {
        return None;
    }
    let ghost shown = paged(data@.assets, page as nat, size as nat);
    let ghost goal = shown.map_values(|asset: FakeAssetView| item_tree(asset));
    let mut list: Vec<Json> = Vec::new();
    assert(trees(list@) =~= goal.take(0));
    for i in from..to
        invariant
            from <= to <= data.assets@.len(),
            shown == data@.assets.subrange(from as int, to as int),
            goal == shown.map_values(|asset: FakeAssetView| item_tree(asset)),
            trees(list@) == goal.take(i - from),
    {
        assert(shown[i - from] == data.assets@[i as int]@);
        let one = item_json(&data.assets[i]);
        proof {
            lemma_trees_push(list@, one);
            assert(goal.take(i + 1 - from) =~= goal.take(i - from).push(goal[i - from]));
        }
        list.push(one);
    }
    assert(goal.take(to - from) =~= goal);
    let next = if more {
        Json::Text(decimal_of(page + 1))
    } else {
        Json::Null
    };
    let mut inner: Vec<(String, Json)> = Vec::new();
    inner.push((copy("items"), Json::List(list)));
    inner.push((copy("nextPage"), next));
    inner.push((copy("total"), Json::Nat(data.assets.len() as u64)));
    let ghost reply = assets_reply(data@, page as nat, size as nat)->Object_0;
    proof {
        lemma_field_trees(inner@);
        assert(field_trees(inner@) =~= reply[0].1->Object_0);
    }
    let mut fields: Vec<(String, Json)> = Vec::new();
    fields.push((copy("assets"), object(inner)));
    proof {
        lemma_field_trees(fields@);
        assert(field_trees(fields@) =~= reply);
    }
    Some(object(fields))
}

pub open spec fn first_asset(assets: Seq<FakeAssetView>, id: Seq<char>) -> Option<FakeAssetView>
    decreases assets.len(),
{
    if assets.len() == 0 {
        None
    } else if assets[0].id == id {
        Some(assets[0])
    } else {
        first_asset(assets.skip(1), id)
    }
}

pub open spec fn faces_reply(data: DataView, asset: FakeAssetView) -> Tree {
    Tree::List(asset.faces.map_values(|face: FaceView| face_tree(face, data.people)))
}

fn faces_json(data: &Data, asset: &FakeAsset) -> (json: Json)
    ensures
        json.tree() == faces_reply(data@, asset@),
{
    let ghost goal = asset@.faces.map_values(|face: FaceView| face_tree(face, data@.people));
    let mut list: Vec<Json> = Vec::new();
    assert(trees(list@) =~= goal.take(0));
    for i in 0..asset.faces.len()
        invariant
            goal == asset@.faces.map_values(|face: FaceView| face_tree(face, data@.people)),
            trees(list@) == goal.take(i as int),
    {
        assert(asset@.faces[i as int] == asset.faces@[i as int]@);
        let one = face_json(&asset.faces[i], &data.people);
        proof {
            lemma_trees_push(list@, one);
            assert(goal.take(i + 1) =~= goal.take(i as int).push(goal[i as int]));
        }
        list.push(one);
    }
    assert(goal.take(asset.faces@.len() as int) =~= goal);
    Json::List(list)
}

/// What the body of a search says.
pub open spec fn asked_of(body: Seq<u8>) -> Tree {
    match parsed_bytes(body) {
        Ok(tree) => tree,
        Err(_) => Tree::Null,
    }
}

pub open spec fn page_asked(asked: Tree) -> nat {
    match asked.field("page"@) {
        Some(Tree::Text(text)) => count_or(Some(text), 1),
        Some(other) => match other.as_nat() {
            Some(n) => n,
            None => 1,
        },
        None => 1,
    }
}

pub open spec fn size_asked(asked: Tree) -> nat {
    match asked.nat_field("size"@) {
        Some(n) => n,
        None => 250,
    }
}

/// The path of a target, without its query.
pub open spec fn path_of(target: Seq<char>) -> Seq<char> {
    match cut(target, '?') {
        Some((path, _)) => path,
        None => target,
    }
}

/// What the fake answers: a status and a body. Nothing is answered where a page cannot be counted
/// to.
pub open spec fn routed(
    method: Seq<char>,
    target: Seq<char>,
    body: Seq<u8>,
    data: DataView,
) -> Option<(nat, Tree)> {
    let path = path_of(target);
    if method == "GET"@ && path == "/api/libraries"@ {
        Some((200, libraries_reply(data)))
    } else if method == "GET"@ && path == "/api/people"@ {
        let page = count_or(queried(target, "page"@), 1);
        let size = count_or(queried(target, "size"@), 500);
        if countable(page, size) {
            Some((200, people_reply(data, page, size)))
        } else {
            None
        }
    } else if method == "POST"@ && path == "/api/search/metadata"@ {
        let page = page_asked(asked_of(body));
        let size = size_asked(asked_of(body));
        if showable_page(data.assets.len(), page, size) {
            Some((200, assets_reply(data, page, size)))
        } else {
            None
        }
    } else if method == "GET"@ && path == "/api/faces"@ {
        let id = match queried(target, "id"@) {
            Some(id) => id,
            None => Seq::empty(),
        };
        match first_asset(data.assets, id) {
            Some(asset) => Some((200, faces_reply(data, asset))),
            None => Some((400, message("Not found or no asset.read access"@))),
        }
    } else {
        Some((404, message("Not Found"@)))
    }
}

pub open spec fn reply_view(reply: Option<(u16, Json)>) -> Option<(nat, Tree)> {
    match reply {
        Some((status, json)) => Some((status as nat, json.tree())),
        None => None,
    }
}

fn read_page(asked: &Json) -> (page: u64)
    ensures
        page == page_asked(asked.tree()),
{
    match asked.get("page") {
        Some(page) => match page {
            Json::Text(text) => match read_count(text) {
                Some(n) => n,
                None => 1,
            },
            other => match other.as_u64() {
                Some(n) => n,
                None => 1,
            },
        },
        None => 1,
    }
}

fn read_size(asked: &Json) -> (size: u64)
    ensures
        size == size_asked(asked.tree()),
{
    match asked.get("size") {
        Some(size) => match size.as_u64() {
            Some(n) => n,
            None => 250,
        },
        None => 250,
    }
}

fn faces_route(target: &str, data: &Data) -> (reply: (u16, Json))
    ensures
        ({
            let id = match queried(target@, "id"@) {
                Some(id) => id,
                None => Seq::empty(),
            };
            (reply.0 as nat, reply.1.tree()) == (match first_asset(data@.assets, id) {
                Some(asset) => (200nat, faces_reply(data@, asset)),
                None => (400nat, message("Not found or no asset.read access"@)),
            })
        }),
{
    let id = match query(target, "id") {
        Some(id) => id,
        None => {
            let nothing = String::new();
            assert(nothing@ =~= Seq::empty());
            nothing
        },
    };
    let ghost all = data@.assets;
    assert(all.skip(0) =~= all);
    for i in 0..data.assets.len()
        invariant
            all == data@.assets,
            id@ == (match queried(target@, "id"@) {
                Some(id) => id,
                None => Seq::empty(),
            }),
            first_asset(all, id@) == first_asset(all.skip(i as int), id@),
    {
        assert(all.skip(i as int)[0] == data.assets@[i as int]@);
        assert(all.skip(i as int).skip(1) =~= all.skip(i + 1));
        if same(&data.assets[i].id, &id) {
            return (200, faces_json(data, &data.assets[i]));
        }
    }
    (400, message_json("Not found or no asset.read access"))
}

/// What the fake answers: a status and a body. Nothing is answered where a page cannot be counted
/// to.
pub fn route(method: &str, target: &str, body: &[u8], data: &Data) -> (reply: Option<(u16, Json)>)
    ensures
        reply_view(reply) == routed(method@, target@, body@, data@),
{
    let path = match split_once(target, '?') {
        Some((path, _)) => path,
        None => copy(target),
    };
    let get = same(method, "GET");
    if get && same(&path, "/api/libraries") {
        return Some((200, libraries_json(data)));
    }
    if get && same(&path, "/api/people") {
        let page: u64 = count_given(query(target, "page"), 1);
        let size: u64 = count_given(query(target, "size"), 500);
        return match people_json(data, page, size) {
            Some(json) => Some((200, json)),
            None => None,
        };
    }
    if same(method, "POST") && same(&path, "/api/search/metadata") {
        let asked = match parse_bytes(body) {
            Ok(asked) => asked,
            Err(_) => Json::Null,
        };
        let page: u64 = read_page(&asked);
        let size: u64 = read_size(&asked);
        return match assets_json(data, page, size) {
            Some(json) => Some((200, json)),
            None => None,
        };
    }
    if get && same(&path, "/api/faces") {
        return Some(faces_route(target, data));
    }
    Some((404, message_json("Not Found")))
}

/// The fake: what it has, and every request as `GET /api/people?...`, in order.
#[derive(Debug, Clone, PartialEq, Eq)]
pub struct FakeImmich {
    pub data: Data,
    pub asked: Vec<String>,
}

impl FakeImmich {
    pub fn new(data: Data) -> (fake: FakeImmich)
        ensures
            fake.data == data,
            fake.asked@.len() == 0,
    {
        FakeImmich { data, asked: Vec::new() }
    }

    /// Every request so far.
    pub fn requests(&self) -> (requests: Vec<String>)
        ensures
            views(requests@) == views(self.asked@),
    {
        crate::text::copy_list(&self.asked)
    }

    /// Puts other data in place of what it has.
    pub fn change(&mut self, data: Data)
        ensures
            final(self).data == data,
            final(self).asked == old(self).asked,
    {
        self.data = data;
    }

    /// Answers a request: the one key is taken and any other refused.
    pub fn answer(&mut self, method: &str, target: &str, key: Option<&str>, body: &[u8]) -> (reply:
        Option<(u16, Json)>)
        ensures
            final(self).data == old(self).data,
            views(final(self).asked@) == views(old(self).asked@).push(method@ + " "@ + target@),
            reply_view(reply) == if (match key {
                Some(key) => key@ == KEY@,
                None => false,
            }) {
                routed(method@, target@, body@, old(self).data@)
            } else {
                Some((401nat, message("Invalid API key"@)))
            },
    {
        let ghost before = views(self.asked@);
        self.asked.push(copy(method).concat(" ").concat(target));
        assert(views(self.asked@) =~= before.push(method@ + " "@ + target@));
        let taken = match key {
            Some(key) => same(key, KEY),
            None => false,
        };
        if !taken {
            return Some((401, message_json("Invalid API key")));
        }
        route(method, target, body, &self.data)
    }
}

// ---- What holds of what is sent ----------------------------------------------------------------

proof fn lemma_face_names()
    ensures
        ({
            let names = seq![
                "boundingBoxX1"@,
                "boundingBoxX2"@,
                "boundingBoxY1"@,
                "boundingBoxY2"@,
                "id"@,
                "imageHeight"@,
                "imageWidth"@,
                "person"@,
                "sourceType"@,
            ];
            names.no_duplicates()
        }),
{
    reveal_strlit("boundingBoxX1");
    reveal_strlit("boundingBoxX2");
    reveal_strlit("boundingBoxY1");
    reveal_strlit("boundingBoxY2");
    reveal_strlit("id");
    reveal_strlit("imageHeight");
    reveal_strlit("imageWidth");
    reveal_strlit("person");
    reveal_strlit("sourceType");
    assert("boundingBoxX1"@[11] == 'X' && "boundingBoxX1"@[12] == '1');
    assert("boundingBoxX2"@[11] == 'X' && "boundingBoxX2"@[12] == '2');
    assert("boundingBoxY1"@[11] == 'Y' && "boundingBoxY1"@[12] == '1');
    assert("boundingBoxY2"@[11] == 'Y' && "boundingBoxY2"@[12] == '2');
    assert("imageWidth"@[0] == 'i');
    assert("sourceType"@[0] == 's');
    let names = seq![
        "boundingBoxX1"@,
        "boundingBoxX2"@,
        "boundingBoxY1"@,
        "boundingBoxY2"@,
        "id"@,
        "imageHeight"@,
        "imageWidth"@,
        "person"@,
        "sourceType"@,
    ];
    assert(names[0].len() == 13 && names[1].len() == 13 && names[2].len() == 13 && names[3].len()
        == 13);
    assert(names[4].len() == 2 && names[5].len() == 11 && names[6].len() == 10 && names[7].len()
        == 6 && names[8].len() == 10);
    assert forall|i: int, j: int| 0 <= i < j < names.len() implies names[i] != names[j] by {
        if i == 0 {
            assert(names[0] != names[1] && names[0] != names[2] && names[0] != names[3]);
        } else if i == 1 {
            assert(names[1] != names[2] && names[1] != names[3]);
        } else if i == 2 {
            assert(names[2] != names[3]);
        } else if i == 6 {
            assert(names[6] != names[8]);
        }
    }
}

proof fn lemma_first_person(people: Seq<PersonView>, id: Seq<char>)
    ensures
        first_person(people, id) matches Some(person) ==> person.id == id && people.contains(
            person,
        ),
        (exists|i: int| 0 <= i < people.len() && (#[trigger] people[i]).id == id) ==> first_person(
            people,
            id,
        ) is Some,
    decreases people.len(),
{
    if people.len() > 0 {
        let rest = people.skip(1);
        lemma_first_person(rest, id);
        assert(people.contains(people[0]));
        if first_person(rest, id) is Some {
            let person = first_person(rest, id)->0;
            if rest.contains(person) {
                let i = choose|i: int| 0 <= i < rest.len() && rest[i] == person;
                assert(people[i + 1] == person);
            }
        }
        if people[0].id != id && exists|i: int|
            0 <= i < people.len() && (#[trigger] people[i]).id == id {
            let i = choose|i: int| 0 <= i < people.len() && (#[trigger] people[i]).id == id;
            assert(rest[i - 1].id == id);
        }
    }
}

/// A face that is held, sent and read back is the same face: the same id, person and preview
/// size, and the same four corners. A person that is not among those held is not sent.
pub proof fn a_face_sent_is_read_back(face: FaceView, people: Seq<PersonView>)
    requires
        i64::MIN <= face.image_width <= i64::MAX,
        i64::MIN <= face.image_height <= i64::MAX,
        i64::MIN <= face.x1 <= i64::MAX,
        i64::MIN <= face.y1 <= i64::MAX,
        i64::MIN <= face.x2 <= i64::MAX,
        i64::MIN <= face.y2 <= i64::MAX,
    ensures
        face_in(face.asset_id, face_tree(face, people)) matches Ok(read) && {
            &&& read.id == face.id
            &&& read.asset_id == face.asset_id
            &&& read.image_width == face.image_width
            &&& read.image_height == face.image_height
            &&& read.x1 == face.x1
            &&& read.y1 == face.y1
            &&& read.x2 == face.x2
            &&& read.y2 == face.y2
            &&& (exists|i: int|
                0 <= i < people.len() && Some((#[trigger] people[i]).id) == face.person_id)
                ==> read.person_id == face.person_id
            &&& (forall|i: int|
                0 <= i < people.len() ==> Some((#[trigger] people[i]).id) != face.person_id)
                ==> read.person_id is None
        },
{
    let tree = face_tree(face, people);
    let fields = tree->Object_0;
    let names = seq![
        "boundingBoxX1"@,
        "boundingBoxX2"@,
        "boundingBoxY1"@,
        "boundingBoxY2"@,
        "id"@,
        "imageHeight"@,
        "imageWidth"@,
        "person"@,
        "sourceType"@,
    ];
    lemma_face_names();
    assert(fields.len() == names.len());
    assert forall|j: int| 0 <= j < names.len() implies (#[trigger] fields[j]).0 == names[j] by {}
    assert forall|k: int| 0 <= k < names.len() implies named(fields, #[trigger] names[k]) == Some(
        fields[k].1,
    ) by {
        assert forall|j: int| 0 <= j < k implies (#[trigger] fields[j]).0 != fields[k].0 by {
            assert(names[j] != names[k]);
        }
        a_field_is_found_by_its_name(fields, k);
    }
    assert(named(fields, names[0]) == Some(Tree::Int(face.x1)));
    assert(named(fields, names[1]) == Some(Tree::Int(face.x2)));
    assert(named(fields, names[2]) == Some(Tree::Int(face.y1)));
    assert(named(fields, names[3]) == Some(Tree::Int(face.y2)));
    assert(named(fields, names[4]) == Some(Tree::Text(face.id)));
    assert(named(fields, names[5]) == Some(Tree::Int(face.image_height)));
    assert(named(fields, names[6]) == Some(Tree::Int(face.image_width)));
    assert(named(fields, names[7]) == Some(fields[7].1));
    if face.person_id is Some {
        let id = face.person_id->0;
        lemma_first_person(people, id);
        if first_person(people, id) is Some {
            let person = first_person(people, id)->0;
            person_is_read(person);
            assert(people.contains(person));
            let i = choose|i: int| 0 <= i < people.len() && people[i] == person;
            assert(Some(people[i].id) == face.person_id);
        }
    }
}

proof fn person_is_read(person: PersonView)
    ensures
        person_tree(person).text_field("id"@) == Some(person.id),
        person_tree(person).text_field("name"@) == Some(person.name),
        person_tree(person).field("isHidden"@) == Some(Tree::Bool(person.hidden)),
{
    reveal_strlit("id");
    reveal_strlit("isHidden");
    reveal_strlit("name");
    let fields = person_tree(person)->Object_0;
    assert(fields[0].0.len() == 2 && fields[1].0.len() == 8 && fields[2].0.len() == 4);
    a_field_is_found_by_its_name(fields, 0);
    a_field_is_found_by_its_name(fields, 1);
    a_field_is_found_by_its_name(fields, 2);
}

/// A person that is held, sent and read back is the same person.
pub proof fn a_person_sent_is_read_back(person: PersonView)
    requires
        trimmed(person.name) == person.name,
    ensures
        person_in(person_tree(person)) == Ok::<PersonView, ErrorView>(person),
{
    person_is_read(person);
}

proof fn lemma_ids_sent(ids: Seq<Seq<char>>)
    ensures
        ids_in(ids.map_values(|id: Seq<char>| id_tree(id))) == ids,
    decreases ids.len(),
{
    let sent = ids.map_values(|id: Seq<char>| id_tree(id));
    if ids.len() == 0 {
        assert(ids_in(sent) =~= ids);
    } else {
        let front = ids.drop_last();
        lemma_ids_sent(front);
        assert(sent.drop_last() =~= front.map_values(|id: Seq<char>| id_tree(id)));
        let fields = seq![("id"@, Tree::Text(ids.last()))];
        a_field_is_found_by_its_name(fields, 0);
        assert(sent.last() == Tree::Object(fields));
        assert(ids =~= front.push(ids.last()));
    }
}

/// An asset that is held, sent and read back says the same: its id, its path, whether it is
/// offline, its size, which way up it is, and the persons of its faces.
pub proof fn an_asset_sent_is_read_back(asset: FakeAssetView)
    requires
        asset.width matches Some(n) ==> i64::MIN <= n <= i64::MAX,
        asset.height matches Some(n) ==> i64::MIN <= n <= i64::MAX,
        asset.orientation matches Some(n) ==> i64::MIN <= n <= i64::MAX,
    ensures
        listed_in(item_tree(asset)) matches Ok(listed) && {
            &&& listed.id == asset.id
            &&& listed.original_path == asset.path
            &&& listed.offline == asset.offline
            &&& listed.width == asset.width
            &&& listed.height == asset.height
            &&& listed.orientation == asset.orientation
            &&& listed.people == persons_of(asset.faces)
        },
{
    reveal_strlit("exifInfo");
    reveal_strlit("id");
    reveal_strlit("isOffline");
    reveal_strlit("originalPath");
    reveal_strlit("people");
    reveal_strlit("exifImageHeight");
    reveal_strlit("exifImageWidth");
    reveal_strlit("orientation");
    let fields = item_tree(asset)->Object_0;
    assert(fields[0].0.len() == 8 && fields[1].0.len() == 2 && fields[2].0.len() == 9
        && fields[3].0.len() == 12 && fields[4].0.len() == 6);
    a_field_is_found_by_its_name(fields, 0);
    a_field_is_found_by_its_name(fields, 1);
    a_field_is_found_by_its_name(fields, 2);
    a_field_is_found_by_its_name(fields, 3);
    a_field_is_found_by_its_name(fields, 4);
    let exif = exif_tree(asset)->Object_0;
    assert(exif[0].0.len() == 15 && exif[1].0.len() == 14 && exif[2].0.len() == 11);
    a_field_is_found_by_its_name(exif, 0);
    a_field_is_found_by_its_name(exif, 1);
    a_field_is_found_by_its_name(exif, 2);
    if asset.orientation is Some {
        signed_numbers_are_read_back(asset.orientation->0);
    }
    lemma_ids_sent(persons_of(asset.faces));
}

/// A person of any face of an asset is among its persons, and every person of it is of a face.
pub proof fn the_persons_of_an_asset_are_those_of_its_faces(faces: Seq<FaceView>, id: Seq<char>)
    ensures
        persons_of(faces).contains(id) <==> exists|i: int|
            0 <= i < faces.len() && (#[trigger] faces[i]).person_id == Some(id),
    decreases faces.len(),
{
    if faces.len() > 0 {
        let front = faces.drop_last();
        let before = persons_of(front);
        let after = persons_of(faces);
        the_persons_of_an_asset_are_those_of_its_faces(front, id);
        assert forall|i: int| 0 <= i < front.len() implies #[trigger] front[i] == faces[i] by {}
        if before.contains(id) {
            let k = choose|k: int| 0 <= k < before.len() && before[k] == id;
            assert(after[k] == id);
            let i = choose|i: int|
                0 <= i < front.len() && (#[trigger] front[i]).person_id == Some(id);
            assert(faces[i].person_id == Some(id));
        }
        if after.contains(id) && !before.contains(id) {
            let k = choose|k: int| 0 <= k < after.len() && after[k] == id;
            if k < before.len() {
                assert(before[k] == id);
            }
            assert(faces[faces.len() - 1].person_id == Some(id));
        }
        if exists|i: int| 0 <= i < faces.len() && (#[trigger] faces[i]).person_id == Some(id) {
            let i = choose|i: int|
                0 <= i < faces.len() && (#[trigger] faces[i]).person_id == Some(id);
            if i < front.len() {
                assert(front[i].person_id == Some(id));
            } else {
                assert(after.last() == id);
                assert(after[after.len() - 1] == id);
            }
        }
    }
}

/// The pages of a list hold all of it: what the first pages show is the list up to where they
/// end, and there is no next page exactly where they show all.
pub proof fn pages_show_everything_once<A>(list: Seq<A>, page: nat, size: nat)
    requires
        page >= 1,
    ensures
        ({
            let shown = ((page - 1) * size) as nat;
            let all = page * size;
            &&& list.take(least(list.len(), shown) as int) + paged(list, page, size) == list.take(
                least(list.len(), all) as int,
            )
            &&& paged(list, page, size).len() <= size
            &&& all >= list.len() ==> list.take(least(list.len(), all) as int) == list
        }),
{
    assert((page - 1) * size >= 0) by (nonlinear_arith)
        requires
            page >= 1,
    ;
    assert((page - 1) * size + size == page * size) by (nonlinear_arith);
    let from = least(list.len(), ((page - 1) * size) as nat);
    let to = least(list.len(), page * size);
    assert(list.take(from as int) + list.subrange(from as int, to as int) =~= list.take(to as int));
    assert(list.take(list.len() as int) =~= list);
}

/// The asset of a path is the first that lies there.
pub proof fn the_asset_of_a_path_lies_there(assets: Seq<FakeAssetView>, path: Seq<char>)
    ensures
        0 <= asset_at(assets, path) <= assets.len(),
        asset_at(assets, path) < assets.len() ==> assets[asset_at(assets, path)].path == path,
        forall|i: int|
            0 <= i < asset_at(assets, path) ==> (#[trigger] assets[i]).path != path,
    decreases assets.len(),
{
    if assets.len() > 0 && assets[0].path != path {
        let rest = assets.skip(1);
        the_asset_of_a_path_lies_there(rest, path);
        assert forall|i: int| 0 <= i < asset_at(assets, path) implies (#[trigger] assets[i]).path
            != path by {
            if i > 0 {
                assert(rest[i - 1] == assets[i]);
            }
        }
    }
}

/// The faces answered are those of an asset of the id asked for, wherever there is one.
pub proof fn the_asset_asked_for_is_found(assets: Seq<FakeAssetView>, id: Seq<char>)
    ensures
        first_asset(assets, id) matches Some(asset) ==> asset.id == id && assets.contains(asset),
        first_asset(assets, id) is None <==> (forall|i: int|
            0 <= i < assets.len() ==> (#[trigger] assets[i]).id != id),
    decreases assets.len(),
{
    if assets.len() > 0 {
        let rest = assets.skip(1);
        the_asset_asked_for_is_found(rest, id);
        assert forall|i: int| 0 < i < assets.len() implies #[trigger] assets[i] == rest[i - 1] by {}
        if assets[0].id == id {
            assert(assets.contains(assets[0]));
        } else if let Some(asset) = first_asset(assets, id) {
            let i = choose|i: int| 0 <= i < rest.len() && rest[i] == asset;
            assert(assets[i + 1] == asset);
            if forall|i: int| 0 <= i < assets.len() ==> (#[trigger] assets[i]).id != id {
                assert(assets[i + 1].id != id);
            }
        } else {
            assert forall|i: int| 0 <= i < assets.len() implies (#[trigger] assets[i]).id
                != id by {
                if i > 0 {
                    assert(rest[i - 1].id != id);
                }
            }
        }
    }
}

/// A face put on a photo is the last of the faces of its asset, under the person and on the
/// preview it was put on, and nothing else changes.
pub proof fn a_face_is_put_on_its_photo_alone(
    data: DataView,
    rel_path: Seq<char>,
    person: Option<Seq<char>>,
    parts: Seq<i64>,
)
    requires
        exists|i: int|
            0 <= i < data.assets.len() && (#[trigger] data.assets[i]).path == inside(rel_path),
    ensures
        ({
            let after = with_face(data, rel_path, person, parts);
            let at = asset_at(data.assets, inside(rel_path));
            let face = after.assets[at].faces.last();
            &&& after.people == data.people
            &&& after.import_paths == data.import_paths
            &&& after.assets.len() == data.assets.len()
            &&& forall|i: int|
                0 <= i < data.assets.len() && i != at ==> #[trigger] after.assets[i]
                    == data.assets[i]
            &&& after.assets[at].path == inside(rel_path)
            &&& after.assets[at].id == data.assets[at].id
            &&& after.assets[at].offline == data.assets[at].offline
            &&& after.assets[at].faces.drop_last() == data.assets[at].faces
            &&& face.asset_id == data.assets[at].id
            &&& face.person_id == person
            &&& face.x1 == pixel_of(parts[0] as int, face.image_width)
            &&& face.y1 == pixel_of(parts[1] as int, face.image_height)
            &&& face.x2 == pixel_of(parts[2] as int, face.image_width)
            &&& face.y2 == pixel_of(parts[3] as int, face.image_height)
        }),
{
    let at = asset_at(data.assets, inside(rel_path));
    the_asset_of_a_path_lies_there(data.assets, inside(rel_path));
    let i = choose|i: int|
        0 <= i < data.assets.len() && (#[trigger] data.assets[i]).path == inside(rel_path);
    assert(at <= i);
    let after = with_face(data, rel_path, person, parts);
    assert(after.assets[at].faces.drop_last() =~= data.assets[at].faces);
}

/// A pixel is no further from where it was put than half of one, and lies on the same side of zero
/// either way a picture is measured.
pub proof fn a_pixel_is_the_nearest(part: int, side: int)
    requires
        0 <= part,
    ensures
        -1_000_000 <= 2 * (1_000_000 * pixel_of(part, side) - part * side) <= 1_000_000,
        side > 0 ==> pixel_of(part, -side) == -pixel_of(part, side),
{
    if side >= 0 {
        let x = 2 * part * side + 1_000_000;
        assert(2 * part * side == 2 * (part * side)) by (nonlinear_arith);
        assert(x == 2_000_000 * (x / 2_000_000) + x % 2_000_000);
    } else {
        let x = 2 * part * -side + 1_000_000;
        assert(2 * part * -side == -2 * (part * side)) by (nonlinear_arith);
        assert(x == 2_000_000 * (x / 2_000_000) + x % 2_000_000);
    }
    assert(-(-side) == side);
}

} // verus!
