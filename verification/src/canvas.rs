//! The canvas that a packing starts from, and how it grows.

use vstd::prelude::*;

verus! {

/// The longest side that a canvas may have. It is half the coordinate range,
/// so that a sheet one padding wider than its bounding box still has a width
/// that fits in a `u32`.
pub const MAX_CANVAS_SIDE: u32 = 0x7FFF_FFFF;

/// Whether a canvas of this size can be packed into: no side is zero and
/// none is longer than `MAX_CANVAS_SIDE`.
pub open spec fn valid_canvas(width: u32, height: u32) -> bool {
    0 < width <= MAX_CANVAS_SIDE && 0 < height <= MAX_CANVAS_SIDE
}

/// A side after it has grown: twice as long, but no longer than
/// `MAX_CANVAS_SIDE`.
pub open spec fn doubled(side: u32) -> u32 {
    if side == 0 {
        1
    } else if 2 * side > MAX_CANVAS_SIDE {
        MAX_CANVAS_SIDE
    } else {
        (2 * side) as u32
    }
}

/// Whether a canvas that has no room for an item of the given size grows in
/// width rather than in height. A side that is at its limit cannot grow. A
/// side that is shorter than the item grows, the width first. Where the
/// canvas is as wide and as high as the item, the shorter side grows, and
/// the width where both are equal.
pub open spec fn widens(width: u32, height: u32, item_width: u32, item_height: u32) -> bool {
    if width >= MAX_CANVAS_SIDE {
        false
    } else if height >= MAX_CANVAS_SIDE {
        true
    } else {
        item_width > width || (item_height <= height && width <= height)
    }
}

/// The canvas that follows a canvas with no room for an item of the given
/// size: one side is doubled. There is none where both sides are at their
/// limit.
pub open spec fn grown(width: u32, height: u32, item_width: u32, item_height: u32) -> Option<
    (u32, u32),
> {
    if width >= MAX_CANVAS_SIDE && height >= MAX_CANVAS_SIDE {
        None
    } else if widens(width, height, item_width, item_height) {
        Some((doubled(width), height))
    } else {
        Some((width, doubled(height)))
    }
}

/// How far the canvas is from its limit, both sides taken together.
pub open spec fn room(width: u32, height: u32) -> int {
    (if width >= MAX_CANVAS_SIDE {
        0
    } else {
        MAX_CANVAS_SIDE - width
    }) + (if height >= MAX_CANVAS_SIDE {
        0
    } else {
        MAX_CANVAS_SIDE - height
    })
}

/// A side after it has grown.
pub fn double(side: u32) -> (longer: u32)
    ensures
        longer == doubled(side),
{
    if side == 0 {
        1
    } else if side > MAX_CANVAS_SIDE / 2 {
        MAX_CANVAS_SIDE
    } else {
        side * 2
    }
}

/// The canvas to try after a canvas of the given size had no room for an
/// item of the given size, or `None` where the canvas cannot grow.
pub fn grow(width: u32, height: u32, item_width: u32, item_height: u32) -> (canvas: Option<
    (u32, u32),
>)
    ensures
        canvas == grown(width, height, item_width, item_height),
        canvas matches Some((w, h)) ==> room(w, h) < room(width, height) && width <= w && height
            <= h && (valid_canvas(width, height) ==> valid_canvas(w, h)),
{
    if width >= MAX_CANVAS_SIDE && height >= MAX_CANVAS_SIDE {
        return None;
    }
    let widen = if width >= MAX_CANVAS_SIDE {
        false
    } else if height >= MAX_CANVAS_SIDE {
        true
    } else {
        item_width > width || (item_height <= height && width <= height)
    };
    if widen {
        Some((double(width), height))
    } else {
        Some((width, double(height)))
    }
}

} // verus!
