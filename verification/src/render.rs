use vstd::prelude::*;
use crate::shape::Shape;
use crate::util::{truncated_quotient, truncated_remainder, lemma_truncated_division};

verus! {

/// The size of the image that is traced for a window of `width` by `height` pixels: each
/// traced pixel covers `resolution` by `resolution` pixels of the window.
pub fn buffer_dimensions(width: u32, height: u32, resolution: u32) -> (dimensions: (u32, u32))
    requires
        resolution > 0,
    ensures
        dimensions.0 == width / resolution,
        dimensions.1 == height / resolution,
{
    (width / resolution, height / resolution)
}

/// The column and row of the pixel at `index` of an image `buffer_width` pixels wide,
/// stored row by row.
pub fn pixel_position(index: u32, buffer_width: u32) -> (position: (u32, u32))
    requires
        buffer_width > 0,
    ensures
        position.0 == index % buffer_width,
        position.1 == index / buffer_width,
        position.1 * buffer_width + position.0 == index,
{
    proof {
        vstd::arithmetic::div_mod::lemma_fundamental_div_mod(index as int, buffer_width as int);
        assert((index / buffer_width) * buffer_width == buffer_width * (index / buffer_width)) by (nonlinear_arith);
    }
    (index % buffer_width, index / buffer_width)
}

/// What a pixel of the debugging view shows.
#[derive(Clone, Copy, Debug, PartialEq, Eq, Structural)]
pub enum PixelRole {
    /// The traced scene.
    Scene,
    /// The traced scene, with the ray traced in debugging mode.
    Center,
    /// The red cross drawn around the center.
    Marker,
}

/// The role of the pixel at column `x` and row `y` of an image of `buffer_width` by
/// `buffer_height` pixels: with debugging on, the pixel at the center is traced in
/// debugging mode and its four neighbours are drawn red.
pub open spec fn pixel_role_spec(x: int, y: int, buffer_width: int, buffer_height: int, debugging: bool) -> PixelRole {
    let cx = buffer_width / 2;
    let cy = buffer_height / 2;
    if debugging && ((x == cx && (y == cy - 1 || y == cy + 1)) || (y == cy && (x == cx - 1 || x == cx + 1))) {
        PixelRole::Marker
    } else if debugging && x == cx && y == cy {
        PixelRole::Center
    } else {
        PixelRole::Scene
    }
}

/// What the pixel at column `x` and row `y` shows.
pub fn pixel_role(x: u32, y: u32, buffer_width: u32, buffer_height: u32, debugging: bool) -> (role: PixelRole)
    ensures
        role == pixel_role_spec(x as int, y as int, buffer_width as int, buffer_height as int, debugging),
{
    let cx = buffer_width / 2;
    let cy = buffer_height / 2;
    let above_or_below = x == cx && ((cy > 0 && y == cy - 1) || y as u64 == cy as u64 + 1);
    let left_or_right = y == cy && ((cx > 0 && x == cx - 1) || x as u64 == cx as u64 + 1);
    if debugging && (above_or_below || left_or_right) {
        PixelRole::Marker
    } else if debugging && x == cx && y == cy {
        PixelRole::Center
    } else {
        PixelRole::Scene
    }
}

/// Whether the point of the screen at `screen_x`, `screen_y` falls on a dark square of the
/// 8-pixel checkerboard shown where the camera is outside every entity.
pub open spec fn checkerboard_dark_spec(screen_x: int, screen_y: int) -> bool {
    truncated_remainder(truncated_quotient(screen_x, 8) + truncated_quotient(screen_y, 8), 2) == 0
}

/// Whether the screen point falls on a dark square of the checkerboard.
pub fn checkerboard_dark(screen_x: i32, screen_y: i32) -> (dark: bool)
    ensures
        dark == checkerboard_dark_spec(screen_x as int, screen_y as int),
{
    let qx = match screen_x.checked_div(8) {
        Some(q) => q,
        None => 0,
    };
    let qy = match screen_y.checked_div(8) {
        Some(q) => q,
        None => 0,
    };
    assert(qx == truncated_quotient(screen_x as int, 8));
    assert(qy == truncated_quotient(screen_y as int, 8));
    assert(-268435456 <= qx <= 268435455) by (nonlinear_arith)
        requires
            qx == truncated_quotient(screen_x as int, 8),
            i32::MIN <= screen_x <= i32::MAX,
    ;
    assert(-268435456 <= qy <= 268435455) by (nonlinear_arith)
        requires
            qy == truncated_quotient(screen_y as int, 8),
            i32::MIN <= screen_y <= i32::MAX,
    ;
    let sum = qx + qy;
    let r = match sum.checked_rem(2) {
        Some(r) => r,
        None => 1,
    };
    assert(r == truncated_remainder(sum as int, 2));
    r == 0
}

/// Twice the offset, in pixels, of the center of the pixel at `screen` from the center of
/// a screen `size` pixels long: `2 * (screen - size / 2) + (1 - size % 2)`.
pub open spec fn ray_offset_doubled_spec(screen: int, size: int) -> int {
    2 * (screen - truncated_quotient(size, 2)) + (1 - truncated_remainder(size, 2))
}

/// Twice the offset of the pixel center from the screen center, along one axis.
pub fn ray_offset_doubled(screen: i32, size: i32) -> (offset: i64)
    ensures
        offset == ray_offset_doubled_spec(screen as int, size as int),
        offset == 2 * screen - size + 1,
{
    let size = size as i64;
    let half = match size.checked_div(2) {
        Some(q) => q,
        None => 0,
    };
    let odd = match size.checked_rem(2) {
        Some(r) => r,
        None => 0,
    };
    assert(half == truncated_quotient(size as int, 2));
    assert(odd == truncated_remainder(size as int, 2));
    proof {
        lemma_truncated_division(size as int, 2);
        vstd::arithmetic::div_mod::lemma_mod_bound(if size >= 0 { size as int } else { -size }, 2);
    }
    2 * (screen as i64 - half) + (1 - odd)
}

/// The position among `distances` of the nearest hit: the first of the least of the
/// present distances; `None` when none is present.
pub open spec fn is_closest(distances: Seq<Option<u64>>, i: int) -> bool {
    &&& 0 <= i < distances.len()
    &&& distances[i] is Some
    &&& forall|j: int| 0 <= j < distances.len() && distances[j] is Some ==> distances[i]->0 <= distances[j]->0
    &&& forall|j: int| 0 <= j < i && distances[j] is Some ==> distances[i]->0 < distances[j]->0
}

/// The position of the nearest hit among `distances`.
pub fn closest_index(distances: &Vec<Option<u64>>) -> (closest: Option<usize>)
    ensures
        closest matches Some(i) ==> is_closest(distances@, i as int),
        closest is None <==> (forall|j: int| 0 <= j < distances@.len() ==> distances@[j] is None),
{
    let mut best: Option<usize> = None;
    let mut k: usize = 0;
    while k < distances.len()
        invariant
            k <= distances@.len(),
            best matches Some(i) ==> is_closest(distances@.take(k as int), i as int),
            best is None <==> (forall|j: int| 0 <= j < k ==> distances@[j] is None),
        decreases distances.len() - k,
    {
        match distances[k] {
            Some(d) => {
                match best {
                    None => {
                        best = Some(k);
                    },
                    Some(i) => {
                        if distances[i].unwrap() > d {
                            best = Some(k);
                        }
                    },
                }
            },
            None => {},
        }
        proof {
            let t = distances@.take(k + 1);
            assert forall|j: int| 0 <= j < k implies distances@.take(k as int)[j] == t[j] by {}
        }
        k = k + 1;
    }
    proof {
        assert(distances@.take(k as int) =~= distances@);
    }
    best
}

/// Whether `entry` is a shape that contains `point`.
pub open spec fn entry_contains<P, S: Shape<P>>(entry: Option<S>, point: P) -> bool {
    match entry {
        Some(s) => s.contains(point),
        None => false,
    }
}

/// The position of the first shape that contains `location`, skipping absent ones.
pub fn first_containing<P, S: Shape<P>>(shapes: &Vec<Option<S>>, location: &P) -> (found: Option<usize>)
    ensures
        found matches Some(i) ==> i < shapes@.len() && entry_contains(shapes@[i as int], *location),
        found matches Some(i) ==> forall|j: int| 0 <= j < i ==> !entry_contains(shapes@[j], *location),
        found is None ==> forall|j: int| 0 <= j < shapes@.len() ==> !entry_contains(shapes@[j], *location),
{
    let mut k: usize = 0;
    while k < shapes.len()
        invariant
            k <= shapes@.len(),
            forall|j: int| 0 <= j < k ==> !entry_contains(shapes@[j], *location),
        decreases shapes.len() - k,
    {
        match &shapes[k] {
            Some(s) => {
                if s.is_point_inside(location) {
                    return Some(k);
                }
            },
            None => {},
        }
        k = k + 1;
    }
    None
}

/// With debugging off every pixel shows the scene. With it on, exactly the pixel at the
/// center (column `width / 2`, row `height / 2`) is traced in debugging mode, and exactly the
/// four pixels one step from it, left, right, above and below, are drawn red.
pub proof fn lemma_debug_view_marks_only_the_center(
    x: int,
    y: int,
    buffer_width: int,
    buffer_height: int,
    debugging: bool,
)
    ensures
        !debugging ==> pixel_role_spec(x, y, buffer_width, buffer_height, debugging)
            == PixelRole::Scene,
        debugging ==> (pixel_role_spec(x, y, buffer_width, buffer_height, debugging)
            == PixelRole::Center <==> (x == buffer_width / 2 && y == buffer_height / 2)),
        debugging ==> (pixel_role_spec(x, y, buffer_width, buffer_height, debugging)
            == PixelRole::Marker <==> ({
            let dx = x - buffer_width / 2;
            let dy = y - buffer_height / 2;
            (if dx < 0 {
                -dx
            } else {
                dx
            }) + (if dy < 0 {
                -dy
            } else {
                dy
            }) == 1
        })),
{
}

} // verus!
