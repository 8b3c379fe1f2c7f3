//! A packed sheet: the placements of the items and their bounding box.

use crate::laws::lemma_footprints_within;
use crate::tree2d::{BoundingBox, Tree2d};
use std::rc::Rc;
use vstd::prelude::*;

verus! {

/// Where an item went: its handle and the rectangle that was reserved for it.
/// The rectangle is the item's footprint, its size plus the padding, and the
/// item itself belongs one padding in from the rectangle's corner.
#[derive(Debug)]
pub struct Placement<T> {
    pub payload: T,
    pub rect: BoundingBox,
}

/// The result of a packing: every item with its rectangle, and the smallest
/// rectangle that contains them all.
#[derive(Debug)]
pub struct PackedSheet<T> {
    pub placements: Vec<Placement<T>>,
    pub total_bounding_box: BoundingBox,
}

impl<T: Copy> Clone for Placement<T> {
    fn clone(&self) -> (copy: Self)
        ensures
            copy == *self,
    {
        *self
    }
}

impl<T: Copy> Copy for Placement<T> {

}

impl<T> PackedSheet<T> {
    /// The width and the height of the finished sheet: one padding more than
    /// those of the bounding box. `None` where one of them does not fit in a
    /// `u32`.
    pub fn final_size(&self, padding: u32) -> (size: Option<(u32, u32)>)
        ensures
            size == if self.total_bounding_box.width + padding <= u32::MAX
                && self.total_bounding_box.height + padding <= u32::MAX {
                Some(
                    (
                        (self.total_bounding_box.width + padding) as u32,
                        (self.total_bounding_box.height + padding) as u32,
                    ),
                )
            } else {
                None
            },
    {
        match (
            self.total_bounding_box.width.checked_add(padding),
            self.total_bounding_box.height.checked_add(padding),
        ) {
            (Some(width), Some(height)) => Some((width, height)),
            _ => None,
        }
    }
}

impl<T> Placement<T> {
    /// What the placement shows of its item: the handle and the size of the
    /// rectangle.
    pub open spec fn stamp(self) -> (T, int, int) {
        (self.payload, self.rect.width as int, self.rect.height as int)
    }
}

/// The rectangles of the placements, in their order.
pub open spec fn rects<T>(placements: Seq<Placement<T>>) -> Seq<BoundingBox> {
    placements.map_values(|p: Placement<T>| p.rect)
}

/// The union of the rectangles, folded from the first one on. Of no
/// rectangles it is the empty rectangle at the origin.
pub open spec fn bounding_box(rects: Seq<BoundingBox>) -> BoundingBox
    decreases rects.len(),
{
    if rects.len() == 0 {
        BoundingBox { x: 0, y: 0, width: 0, height: 0 }
    } else if rects.len() == 1 {
        rects[0]
    } else {
        bounding_box(rects.drop_last()).spec_union(rects.last())
    }
}

/// The bounding box contains every rectangle.
pub proof fn lemma_bounding_box_contains(rects: Seq<BoundingBox>)
    requires
        forall|i: int| 0 <= i < rects.len() ==> (#[trigger] rects[i]).wf(),
    ensures
        bounding_box(rects).wf(),
        forall|i: int| 0 <= i < rects.len() ==> (#[trigger] rects[i]).within(bounding_box(rects)),
    decreases rects.len(),
{
    if rects.len() > 1 {
        let rest = rects.drop_last();
        lemma_bounding_box_contains(rest);
        assert forall|i: int| 0 <= i < rects.len() implies (#[trigger] rects[i]).within(
            bounding_box(rects),
        ) by {
            if i < rest.len() {
                assert(rects[i] == rest[i]);
            }
        }
    }
}

/// The bounding box is tight: it lies inside every rectangle that contains
/// all the rectangles.
pub proof fn lemma_bounding_box_is_tight(rects: Seq<BoundingBox>, outer: BoundingBox)
    requires
        rects.len() > 0,
        forall|i: int| 0 <= i < rects.len() ==> (#[trigger] rects[i]).wf(),
        forall|i: int| 0 <= i < rects.len() ==> (#[trigger] rects[i]).within(outer),
    ensures
        bounding_box(rects).within(outer),
    decreases rects.len(),
{
    if rects.len() > 1 {
        let rest = rects.drop_last();
        assert forall|i: int| 0 <= i < rest.len() implies (#[trigger] rest[i]).within(outer) by {
            assert(rest[i] == rects[i]);
        }
        lemma_bounding_box_is_tight(rest, outer);
        lemma_bounding_box_contains(rest);
        assert(rects.last() == rects[rects.len() - 1]);
    }
}

/// The smallest rectangle that contains the rectangles of all the
/// placements.
pub fn total_bounding_box<T>(placements: &Vec<Placement<T>>) -> (bb: BoundingBox)
    requires
        forall|i: int| 0 <= i < placements.len() ==> (#[trigger] placements[i]).rect.wf(),
    ensures
        bb == bounding_box(rects(placements@)),
{
    if placements.len() == 0 {
        return BoundingBox { x: 0, y: 0, width: 0, height: 0 };
    }
    let ghost all = rects(placements@);
    let mut bb = placements[0].rect;
    let mut i: usize = 1;
    assert(all.take(1) =~= seq![placements[0].rect]);
    while i < placements.len()
        invariant
            1 <= i <= placements.len(),
            all == rects(placements@),
            forall|k: int| 0 <= k < placements.len() ==> (#[trigger] placements[k]).rect.wf(),
            bb == bounding_box(all.take(i as int)),
            bb.wf(),
        decreases placements.len() - i,
    {
        proof {
            assert(all.take(i + 1).drop_last() =~= all.take(i as int));
            assert(all.take(i + 1).last() == placements[i as int].rect);
        }
        bb = bb.union(&placements[i].rect);
        i += 1;
    }
    assert(all.take(i as int) =~= all);
    bb
}

/// The placements that a tree holds: every item with the rectangle that it
/// occupies, in preorder, with the handles taken out of their shared
/// pointers.
pub open spec fn arranged<T>(tree: Tree2d<T>) -> Seq<Placement<T>> {
    tree.footprints().map_values(|p: (Rc<T>, BoundingBox)| Placement { payload: *p.0, rect: p.1 })
}

impl<T> View for PackedSheet<T> {
    type V = (Seq<Placement<T>>, BoundingBox);

    open spec fn view(&self) -> (Seq<Placement<T>>, BoundingBox) {
        (self.placements@, self.total_bounding_box)
    }
}

/// The sheet of a tree: its placements and their bounding box.
pub open spec fn sheet_of<T>(tree: Tree2d<T>) -> (Seq<Placement<T>>, BoundingBox) {
    (arranged(tree), bounding_box(rects(arranged(tree))))
}

/// Reads the sheet off a tree: every item with the rectangle that it
/// occupies, in the order of `flatten`, and the bounding box of those
/// rectangles.
pub fn read_sheet<T: Copy>(tree: &Tree2d<T>) -> (sheet: PackedSheet<T>)
    requires
        tree.wf(),
    ensures
        sheet@ == sheet_of(*tree),
{
    let flat = tree.flatten_footprints();
    let mut placements: Vec<Placement<T>> = Vec::new();
    let mut i: usize = 0;
    while i < flat.len()
        invariant
            i <= flat.len(),
            flat@ == tree.footprints(),
            placements@ == arranged(*tree).take(i as int),
        decreases flat.len() - i,
    {
        let payload: T = *flat[i].0;
        let rect = flat[i].1;
        placements.push(Placement { payload, rect });
        assert(arranged(*tree).take(i + 1) =~= arranged(*tree).take(i as int).push(
            Placement { payload, rect },
        ));
        i += 1;
    }
    proof {
        assert(arranged(*tree).take(i as int) =~= arranged(*tree));
        lemma_footprints_within(*tree);
        assert forall|k: int| 0 <= k < placements.len() implies (
        #[trigger] placements[k]).rect.wf() by {
            assert(placements[k].rect == tree.footprints()[k].1);
        }
    }
    let total_bounding_box = total_bounding_box(&placements);
    PackedSheet { placements, total_bounding_box }
}

/// No two placements overlap.
pub open spec fn no_overlap<T>(placements: Seq<Placement<T>>) -> bool {
    forall|i: int, j: int|
        0 <= i < j < placements.len() ==> (#[trigger] placements[i]).rect.disjoint(
            (#[trigger] placements[j]).rect,
        )
}

/// The bounding box starts at the origin, the sheet that is one padding wider
/// and higher than it has sides that fit in a `u32`, and every placement lies
/// inside the bounding box, and so inside that sheet.
pub open spec fn contained<T>(
    placements: Seq<Placement<T>>,
    bb: BoundingBox,
    padding: u32,
) -> bool {
    &&& bb.x == 0
    &&& bb.y == 0
    &&& bb.width + padding <= u32::MAX
    &&& bb.height + padding <= u32::MAX
    &&& forall|i: int| 0 <= i < placements.len() ==> (#[trigger] placements[i]).rect.within(bb)
}

} // verus!
