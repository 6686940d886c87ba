//! A face box from how Immich saw the photo to how the file stores it.
//!
//! Immich measures a face on its preview, which is turned the way the photo is shown. MWG wants
//! the box relative to the stored pixels, before any turn. So the box is taken as two corners,
//! each corner is turned back by the inverse of the orientation, and the box is made again from
//! them. What reaches past the edge is clamped.

use vstd::prelude::*;

use super::snapshot::Face;
use crate::layout::int_opt;

verus! {

/// Whether a photo of this orientation is shown on its side, so its width is its height.
pub open spec fn on_its_side(orientation: Option<int>) -> bool {
    match orientation {
        Some(way) => 5 <= way <= 8,
        None => false,
    }
}

/// Whether a photo of this orientation is shown on its side, so its width is its height.
pub fn sideways(orientation: Option<i64>) -> (yes: bool)
    ensures
        yes == on_its_side(int_opt(orientation)),
{
    match orientation {
        Some(way) => 5 <= way && way <= 8,
        None => false,
    }
}

/// A box in the stored picture, and the size of that picture, all in pixels of the preview.
#[derive(Debug, Clone, Copy, PartialEq, Eq, Structural)]
pub struct Area {
    pub left: i64,
    pub top: i64,
    pub right: i64,
    pub bottom: i64,
    pub width: i64,
    pub height: i64,
}

pub struct AreaView {
    pub left: int,
    pub top: int,
    pub right: int,
    pub bottom: int,
    pub width: int,
    pub height: int,
}

impl View for Area {
    type V = AreaView;

    open spec fn view(&self) -> AreaView {
        AreaView {
            left: self.left as int,
            top: self.top as int,
            right: self.right as int,
            bottom: self.bottom as int,
            width: self.width as int,
            height: self.height as int,
        }
    }
}

pub open spec fn clamped(value: int, most: int) -> int {
    if value < 0 {
        0
    } else if value > most {
        most
    } else {
        value
    }
}

pub open spec fn lesser(a: int, b: int) -> int {
    if a < b {
        a
    } else {
        b
    }
}

pub open spec fn greater(a: int, b: int) -> int {
    if a < b {
        b
    } else {
        a
    }
}

/// Where a point shown at `(x, y)` of a picture of this size lies in the stored picture.
pub open spec fn turned_back(orientation: int, x: int, y: int, wide: int, high: int) -> (int, int) {
    if orientation == 2 {
        (wide - x, y)
    } else if orientation == 3 {
        (wide - x, high - y)
    } else if orientation == 4 {
        (x, high - y)
    } else if orientation == 5 {
        (y, x)
    } else if orientation == 6 {
        (y, wide - x)
    } else if orientation == 7 {
        (high - y, wide - x)
    } else if orientation == 8 {
        (high - y, x)
    } else {
        (x, y)
    }
}

/// Where a point at `(x, y)` of a stored picture of this size is shown.
pub open spec fn turned(orientation: int, x: int, y: int, wide: int, high: int) -> (int, int) {
    if orientation == 2 {
        (wide - x, y)
    } else if orientation == 3 {
        (wide - x, high - y)
    } else if orientation == 4 {
        (x, high - y)
    } else if orientation == 5 {
        (y, x)
    } else if orientation == 6 {
        (high - y, x)
    } else if orientation == 7 {
        (high - y, wide - x)
    } else if orientation == 8 {
        (y, wide - x)
    } else {
        (x, y)
    }
}

/// The orientation a photo is stored in, upright where it says none.
pub open spec fn way(orientation: Option<int>) -> int {
    match orientation {
        Some(way) => way,
        None => 1,
    }
}

/// The size of the stored picture, from the size it is shown in.
pub open spec fn stored_size(orientation: Option<int>, wide: int, high: int) -> (int, int) {
    if on_its_side(orientation) {
        (high, wide)
    } else {
        (wide, high)
    }
}

/// The box in the stored picture, or none where nothing of it is inside the picture.
pub open spec fn stored_area(face: Face, orientation: Option<int>) -> Option<AreaView> {
    let (wide, high) = (face.image_width as int, face.image_height as int);
    let (ax, ay) = turned_back(
        way(orientation),
        clamped(face.x1 as int, wide),
        clamped(face.y1 as int, high),
        wide,
        high,
    );
    let (bx, by) = turned_back(
        way(orientation),
        clamped(face.x2 as int, wide),
        clamped(face.y2 as int, high),
        wide,
        high,
    );
    let (width, height) = stored_size(orientation, wide, high);
    if wide <= 0 || high <= 0 || ax == bx || ay == by {
        None
    } else {
        Some(
            AreaView {
                left: lesser(ax, bx),
                top: lesser(ay, by),
                right: greater(ax, bx),
                bottom: greater(ay, by),
                width,
                height,
            },
        )
    }
}

fn clamp(value: i64, most: i64) -> (within: i64)
    requires
        0 < most,
    ensures
        within == clamped(value as int, most as int),
{
    if value < 0 {
        0
    } else if value > most {
        most
    } else {
        value
    }
}

fn turn_back(orientation: i64, x: i64, y: i64, wide: i64, high: i64) -> (point: (i64, i64))
    requires
        0 <= x <= wide,
        0 <= y <= high,
    ensures
        (point.0 as int, point.1 as int) == turned_back(
            orientation as int,
            x as int,
            y as int,
            wide as int,
            high as int,
        ),
{
    match orientation {
        2 => (wide - x, y),
        3 => (wide - x, high - y),
        4 => (x, high - y),
        5 => (y, x),
        6 => (y, wide - x),
        7 => (high - y, wide - x),
        8 => (high - y, x),
        _ => (x, y),
    }
}

/// The face's box in the stored picture, or `None` when nothing of it is inside the picture.
pub fn stored(face: &Face, orientation: Option<i64>) -> (area: Option<Area>)
    ensures
        match area {
            Some(area) => stored_area(*face, int_opt(orientation)) == Some(area@),
            None => stored_area(*face, int_opt(orientation)) is None,
        },
{
    let (wide, high) = (face.image_width, face.image_height);
    if wide <= 0 || high <= 0 {
        return None;
    }
    let turn: i64 = match orientation {
        Some(way) => way,
        None => 1,
    };
    let (ax, ay) = turn_back(turn, clamp(face.x1, wide), clamp(face.y1, high), wide, high);
    let (bx, by) = turn_back(turn, clamp(face.x2, wide), clamp(face.y2, high), wide, high);
    if ax == bx || ay == by {
        return None;
    }
    let (left, right) = if ax < bx {
        (ax, bx)
    } else {
        (bx, ax)
    };
    let (top, bottom) = if ay < by {
        (ay, by)
    } else {
        (by, ay)
    };
    let (width, height) = if sideways(orientation) {
        (high, wide)
    } else {
        (wide, high)
    };
    Some(Area { left, top, right, bottom, width, height })
}

/// Every orientation turns back to what it was turned from.
pub proof fn every_turn_goes_back(orientation: Option<int>, x: int, y: int, wide: int, high: int)
    ensures
        ({
            let (at_x, at_y) = turned_back(way(orientation), x, y, wide, high);
            let (width, height) = stored_size(orientation, wide, high);
            turned(way(orientation), at_x, at_y, width, height) == (x, y)
        }),
{
}

/// A stored box lies inside the stored picture, and shown again it is the box Immich saw, as far
/// as that is inside the picture.
pub proof fn a_stored_box_is_shown_where_it_was_seen(face: Face, orientation: Option<int>)
    requires
        stored_area(face, orientation) is Some,
    ensures
        ({
            let area = stored_area(face, orientation)->0;
            let (wide, high) = (face.image_width as int, face.image_height as int);
            let (ax, ay) = turned(way(orientation), area.left, area.top, area.width, area.height);
            let (bx, by) = turned(
                way(orientation),
                area.right,
                area.bottom,
                area.width,
                area.height,
            );
            let (x1, x2) = (clamped(face.x1 as int, wide), clamped(face.x2 as int, wide));
            let (y1, y2) = (clamped(face.y1 as int, high), clamped(face.y2 as int, high));
            &&& 0 <= area.left < area.right <= area.width
            &&& 0 <= area.top < area.bottom <= area.height
            &&& lesser(ax, bx) == lesser(x1, x2) && greater(ax, bx) == greater(x1, x2)
            &&& lesser(ay, by) == lesser(y1, y2) && greater(ay, by) == greater(y1, y2)
        }),
{
    let way = way(orientation);
    if way == 2 {
    } else if way == 3 {
    } else if way == 4 {
    } else if way == 5 {
    } else if way == 6 {
    } else if way == 7 {
    } else if way == 8 {
    } else {
    }
}

/// An orientation says where the first row and the first column of the stored picture are shown:
/// the row at the top, at the bottom, on the left or on the right, and the column likewise.
pub proof fn an_orientation_says_where_the_first_row_and_column_are(
    orientation: int,
    x: int,
    y: int,
    wide: int,
    high: int,
)
    requires
        1 <= orientation <= 8,
        0 < wide,
        0 < high,
    ensures
        ({
            let (at_x, at_y) = turned(orientation, x, y, wide, high);
            let (right, bottom) = if orientation >= 5 {
                (high, wide)
            } else {
                (wide, high)
            };
            &&& stored_size(Some(orientation), right, bottom) == (wide, high)
            &&& orientation == 1 || orientation == 2 ==> (y == 0 <==> at_y == 0)
            &&& orientation == 3 || orientation == 4 ==> (y == 0 <==> at_y == bottom)
            &&& orientation == 5 || orientation == 8 ==> (y == 0 <==> at_x == 0)
            &&& orientation == 6 || orientation == 7 ==> (y == 0 <==> at_x == right)
            &&& orientation == 1 || orientation == 4 ==> (x == 0 <==> at_x == 0)
            &&& orientation == 2 || orientation == 3 ==> (x == 0 <==> at_x == right)
            &&& orientation == 5 || orientation == 6 ==> (x == 0 <==> at_y == 0)
            &&& orientation == 7 || orientation == 8 ==> (x == 0 <==> at_y == bottom)
        }),
{
}

/// A box is kept exactly where the preview has a size and something of the box, cut to the preview,
/// is inside it.
pub proof fn a_box_is_kept_where_something_of_it_is_inside(face: Face, orientation: Option<int>)
    ensures
        ({
            let (wide, high) = (face.image_width as int, face.image_height as int);
            stored_area(face, orientation) is Some <==> wide > 0 && high > 0 && clamped(
                face.x1 as int,
                wide,
            ) != clamped(face.x2 as int, wide) && clamped(face.y1 as int, high) != clamped(
                face.y2 as int,
                high,
            )
        }),
        forall|value: int, most: int|
            most >= 0 ==> 0 <= #[trigger] clamped(value, most) <= most && (0 <= value <= most
                ==> clamped(value, most) == value),
{
}

} // verus!
