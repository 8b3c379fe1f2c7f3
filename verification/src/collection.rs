//! The items of a packing, measured and in packing order.

use crate::canvas::{valid_canvas, MAX_CANVAS_SIDE};
use crate::packer::PackingItem;
use crate::sorting::{sort_by_area, sorted_by_area};
use vstd::prelude::*;

verus! {

/// The items in packing order, with what an estimate of the canvas goes by:
/// the largest width and the largest height among them, and their number.
#[derive(Debug)]
pub struct ImageCollection<T> {
    pub named_images: Vec<PackingItem<T>>,
    pub max_width: u32,
    pub max_height: u32,
    pub num_images: usize,
}

/// The largest width among the items, 0 where there are none.
pub open spec fn widest<T>(items: Seq<PackingItem<T>>) -> u32
    decreases items.len(),
{
    if items.len() == 0 {
        0
    } else if items.last().width > widest(items.drop_last()) {
        items.last().width
    } else {
        widest(items.drop_last())
    }
}

/// The largest height among the items, 0 where there are none.
pub open spec fn tallest<T>(items: Seq<PackingItem<T>>) -> u32
    decreases items.len(),
{
    if items.len() == 0 {
        0
    } else if items.last().height > tallest(items.drop_last()) {
        items.last().height
    } else {
        tallest(items.drop_last())
    }
}

/// No item is wider than `widest` or higher than `tallest`, and one item is
/// as wide and one is as high.
pub proof fn lemma_widest_tallest<T>(items: Seq<PackingItem<T>>)
    ensures
        forall|i: int| 0 <= i < items.len() ==> (#[trigger] items[i]).width <= widest(items),
        forall|i: int| 0 <= i < items.len() ==> (#[trigger] items[i]).height <= tallest(items),
        items.len() > 0 ==> exists|i: int|
            0 <= i < items.len() && (#[trigger] items[i]).width == widest(items),
        items.len() > 0 ==> exists|i: int|
            0 <= i < items.len() && (#[trigger] items[i]).height == tallest(items),
    decreases items.len(),
{
    if items.len() > 0 {
        let rest = items.drop_last();
        lemma_widest_tallest(rest);
        assert forall|i: int| 0 <= i < items.len() implies (#[trigger] items[i]).width <= widest(
            items,
        ) && items[i].height <= tallest(items) by {
            if i < rest.len() {
                assert(items[i] == rest[i]);
            }
        }
        let last = items.len() - 1;
        if items.last().width > widest(rest) || rest.len() == 0 {
            assert(items[last].width == widest(items));
        } else {
            let i = choose|i: int|
                0 <= i < rest.len() && (#[trigger] rest[i]).width == widest(rest);
            assert(items[i] == rest[i]);
        }
        if items.last().height > tallest(rest) || rest.len() == 0 {
            assert(items[last].height == tallest(items));
        } else {
            let i = choose|i: int|
                0 <= i < rest.len() && (#[trigger] rest[i]).height == tallest(rest);
            assert(items[i] == rest[i]);
        }
    }
}

/// A side of the estimated canvas: the longest item side plus the padding,
/// kept between 1 and `MAX_CANVAS_SIDE`.
pub open spec fn estimated_side(longest: u32, padding: u32) -> u32 {
    if longest + padding < 1 {
        1
    } else if longest + padding > MAX_CANVAS_SIDE {
        MAX_CANVAS_SIDE
    } else {
        (longest + padding) as u32
    }
}

impl<T> ImageCollection<T> {
    /// Whether this is the collection of the given items: they stand in
    /// packing order, and the three measures are theirs.
    pub open spec fn describes(self, items: Seq<PackingItem<T>>) -> bool {
        &&& self.named_images@ == sorted_by_area(items)
        &&& self.max_width == widest(items)
        &&& self.max_height == tallest(items)
        &&& self.num_images == items.len()
    }
}

impl<T: Copy> ImageCollection<T> {
    /// Measures the items and puts them in packing order: by descending
    /// area, items of equal area in the order given.
    pub fn new(named_images: Vec<PackingItem<T>>) -> (collection: ImageCollection<T>)
        ensures
            collection.describes(named_images@),
            forall|i: int|
                0 <= i < named_images.len() ==> (#[trigger] named_images[i]).width
                    <= collection.max_width && named_images[i].height <= collection.max_height,
            named_images.len() > 0 ==> exists|i: int|
                0 <= i < named_images.len() && (#[trigger] named_images[i]).width
                    == collection.max_width,
            named_images.len() > 0 ==> exists|i: int|
                0 <= i < named_images.len() && (#[trigger] named_images[i]).height
                    == collection.max_height,
            named_images.len() == 0 ==> collection.max_width == 0 && collection.max_height == 0,
    {
        let mut max_width: u32 = 0;
        let mut max_height: u32 = 0;
        let mut i: usize = 0;
        while i < named_images.len()
            invariant
                i <= named_images.len(),
                max_width == widest(named_images@.take(i as int)),
                max_height == tallest(named_images@.take(i as int)),
            decreases named_images.len() - i,
        {
            proof {
                assert(named_images@.take(i + 1).drop_last() =~= named_images@.take(i as int));
                assert(named_images@.take(i + 1).last() == named_images[i as int]);
            }
            if named_images[i].width > max_width {
                max_width = named_images[i].width;
            }
            if named_images[i].height > max_height {
                max_height = named_images[i].height;
            }
            i += 1;
        }
        proof {
            assert(named_images@.take(i as int) =~= named_images@);
            lemma_widest_tallest(named_images@);
        }
        let num_images = named_images.len();

        let sorted = sort_by_area(&named_images);

        ImageCollection { named_images: sorted, max_width, max_height, num_images }
    }

    /// The canvas to start from: as wide as the widest item and as high as
    /// the highest, each with the padding. It is always a valid canvas.
    pub fn canvas_estimate(&self, padding: u32) -> (canvas: (u32, u32))
        ensures
            canvas == (
                estimated_side(self.max_width, padding),
                estimated_side(self.max_height, padding),
            ),
            valid_canvas(canvas.0, canvas.1),
    {
        (estimate_side(self.max_width, padding), estimate_side(self.max_height, padding))
    }
}

/// A side of the estimated canvas.
pub fn estimate_side(longest: u32, padding: u32) -> (side: u32)
    ensures
        side == estimated_side(longest, padding),
        0 < side <= MAX_CANVAS_SIDE,
{
    if longest == 0 && padding == 0 {
        1
    } else if longest > MAX_CANVAS_SIDE || padding > MAX_CANVAS_SIDE - longest {
        MAX_CANVAS_SIDE
    } else {
        longest + padding
    }
}

} // verus!
