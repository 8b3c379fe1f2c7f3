//! What holds of every well-formed packing tree: placed items stay inside
//! the canvas, never overlap, and an insertion adds exactly one of them.

use crate::tree2d::{split, BoundingBox, Tree2d};
use std::rc::Rc;
use vstd::prelude::*;

verus! {

/// The rectangle of an item of the given size that sits in the top-left
/// corner of `bb`.
pub open spec fn corner(bb: BoundingBox, width: u32, height: u32) -> BoundingBox {
    BoundingBox { x: bb.x, y: bb.y, width, height }
}

/// A split is a partition: the item and the two strips lie inside the region,
/// no two of them overlap, and together they have the region's area.
pub proof fn lemma_split_partitions(bb: BoundingBox, width: u32, height: u32)
    requires
        bb.wf(),
        bb.spec_can_contain(width, height),
    ensures
        corner(bb, width, height).within(bb),
        split(bb, width, height).0.within(bb),
        split(bb, width, height).1.within(bb),
        split(bb, width, height).0.wf(),
        split(bb, width, height).1.wf(),
        corner(bb, width, height).disjoint(split(bb, width, height).0),
        corner(bb, width, height).disjoint(split(bb, width, height).1),
        split(bb, width, height).0.disjoint(split(bb, width, height).1),
        corner(bb, width, height).spec_area() + split(bb, width, height).0.spec_area() + split(
            bb,
            width,
            height,
        ).1.spec_area() == bb.spec_area(),
{
    let w = width as int;
    let h = height as int;
    let wr = bb.width - width;
    let hr = bb.height - height;
    assert(w * h + wr * h + (w + wr) * hr == (w + wr) * (h + hr)) by (nonlinear_arith);
    assert(w * h + wr * (h + hr) + w * hr == (w + wr) * (h + hr)) by (nonlinear_arith);
}

/// A rectangle inside a region is clear of whatever is clear of the region.
pub proof fn lemma_within_keeps_disjoint(inner: BoundingBox, outer: BoundingBox, other: BoundingBox)
    requires
        inner.within(outer),
        outer.disjoint(other),
    ensures
        inner.disjoint(other),
        other.disjoint(inner),
{
}

/// Every placed item lies inside the region of its tree, and its rectangle
/// is representable.
pub proof fn lemma_footprints_within<T>(tree: Tree2d<T>)
    requires
        tree.wf(),
    ensures
        forall|i: int|
            0 <= i < tree.footprints().len() ==> (#[trigger] tree.footprints()[i]).1.within(
                tree.region(),
            ),
        forall|i: int|
            0 <= i < tree.footprints().len() ==> (#[trigger] tree.footprints()[i]).1.wf(),
    decreases tree,
{
    match tree {
        Tree2d::Leaf { .. } => {},
        Tree2d::Node { bb, right, down, data } => {
            let item = tree.item();
            lemma_split_partitions(bb, item.width, item.height);
            lemma_footprints_within(*right);
            lemma_footprints_within(*down);
            let head = seq![(data, item)];
            let r = right.footprints();
            let d = down.footprints();
            assert(tree.footprints() == head + r + d);
            let all = tree.footprints();
            assert forall|i: int| 0 <= i < all.len() implies (#[trigger] all[i]).1.within(
                tree.region(),
            ) && all[i].1.wf() by {
                if i == 0 {
                    assert(tree.footprints()[i] == (data, item));
                } else if i < 1 + r.len() {
                    assert(tree.footprints()[i] == r[i - 1]);
                    assert(r[i - 1].1.within(right.region()));
                } else {
                    assert(tree.footprints()[i] == d[i - 1 - r.len()]);
                    assert(d[i - 1 - r.len()].1.within(down.region()));
                }
            }
        },
    }
}

/// No two placed items of a well-formed tree overlap.
pub proof fn lemma_no_overlap<T>(tree: Tree2d<T>)
    requires
        tree.wf(),
    ensures
        forall|i: int, j: int|
            0 <= i < j < tree.footprints().len() ==> (#[trigger] tree.footprints()[i]).1.disjoint(
                (#[trigger] tree.footprints()[j]).1,
            ),
    decreases tree,
{
    match tree {
        Tree2d::Leaf { .. } => {},
        Tree2d::Node { bb, right, down, data } => {
            let item = tree.item();
            lemma_split_partitions(bb, item.width, item.height);
            lemma_footprints_within(*right);
            lemma_footprints_within(*down);
            lemma_no_overlap(*right);
            lemma_no_overlap(*down);
            let head = seq![(data, item)];
            let r = right.footprints();
            let d = down.footprints();
            let all = tree.footprints();
            assert(all == head + r + d);
            assert forall|i: int, j: int| 0 <= i < j < all.len() implies (
            #[trigger] all[i]).1.disjoint((#[trigger] all[j]).1) by {
                if i == 0 {
                    assert(all[i] == (data, item));
                    if j < 1 + r.len() {
                        assert(all[j] == r[j - 1]);
                        lemma_within_keeps_disjoint(r[j - 1].1, right.region(), item);
                    } else {
                        assert(all[j] == d[j - 1 - r.len()]);
                        lemma_within_keeps_disjoint(d[j - 1 - r.len()].1, down.region(), item);
                    }
                } else if j < 1 + r.len() {
                    assert(all[i] == r[i - 1]);
                    assert(all[j] == r[j - 1]);
                } else if i < 1 + r.len() {
                    assert(all[i] == r[i - 1]);
                    assert(all[j] == d[j - 1 - r.len()]);
                    lemma_within_keeps_disjoint(r[i - 1].1, right.region(), down.region());
                    lemma_within_keeps_disjoint(d[j - 1 - r.len()].1, down.region(), r[i - 1].1);
                } else {
                    assert(all[i] == d[i - 1 - r.len()]);
                    assert(all[j] == d[j - 1 - r.len()]);
                }
            }
        },
    }
}

/// Every free region lies inside the region of its tree.
pub proof fn lemma_free_within<T>(tree: Tree2d<T>)
    requires
        tree.wf(),
    ensures
        forall|i: int|
            0 <= i < tree.free().len() ==> (#[trigger] tree.free()[i]).within(tree.region()),
    decreases tree,
{
    match tree {
        Tree2d::Leaf { .. } => {},
        Tree2d::Node { bb, right, down, .. } => {
            let item = tree.item();
            lemma_split_partitions(bb, item.width, item.height);
            lemma_free_within(*right);
            lemma_free_within(*down);
            let r = right.free();
            let d = down.free();
            let all = tree.free();
            assert forall|i: int| 0 <= i < all.len() implies (#[trigger] all[i]).within(
                tree.region(),
            ) by {
                if i < r.len() {
                    assert(tree.free()[i] == r[i]);
                    assert(r[i].within(right.region()));
                } else {
                    assert(tree.free()[i] == d[i - r.len()]);
                    assert(d[i - r.len()].within(down.region()));
                }
            }
        },
    }
}

/// Every free region is clear of every placed item and of every other free
/// region.
pub proof fn lemma_free_is_clear<T>(tree: Tree2d<T>)
    requires
        tree.wf(),
    ensures
        forall|i: int, j: int|
            0 <= i < tree.free().len() && 0 <= j < tree.footprints().len() ==> (
            #[trigger] tree.free()[i]).disjoint((#[trigger] tree.footprints()[j]).1),
        forall|i: int, j: int|
            0 <= i < j < tree.free().len() ==> (#[trigger] tree.free()[i]).disjoint(
                #[trigger] tree.free()[j],
            ),
    decreases tree,
{
    match tree {
        Tree2d::Leaf { .. } => {},
        Tree2d::Node { bb, right, down, data } => {
            let item = tree.item();
            lemma_split_partitions(bb, item.width, item.height);
            lemma_footprints_within(*right);
            lemma_footprints_within(*down);
            lemma_free_within(*right);
            lemma_free_within(*down);
            lemma_free_is_clear(*right);
            lemma_free_is_clear(*down);
            let rf = right.free();
            let df = down.free();
            let rp = right.footprints();
            let dp = down.footprints();
            let free = tree.free();
            let placed = tree.footprints();
            assert(free == rf + df);
            assert(placed == seq![(data, item)] + rp + dp);
            assert forall|i: int, j: int| 0 <= i < free.len() && 0 <= j < placed.len() implies (
            #[trigger] free[i]).disjoint((#[trigger] placed[j]).1) by {
                let (leaf, side) = if i < rf.len() {
                    (rf[i], right.region())
                } else {
                    (df[i - rf.len()], down.region())
                };
                assert(free[i] == leaf && leaf.within(side));
                if j == 0 {
                    assert(placed[j] == (data, item));
                    lemma_within_keeps_disjoint(leaf, side, item);
                } else if j < 1 + rp.len() {
                    assert(placed[j] == rp[j - 1]);
                    if i >= rf.len() {
                        lemma_within_keeps_disjoint(leaf, side, right.region());
                        lemma_within_keeps_disjoint(rp[j - 1].1, right.region(), leaf);
                    }
                } else {
                    assert(placed[j] == dp[j - 1 - rp.len()]);
                    if i < rf.len() {
                        lemma_within_keeps_disjoint(leaf, side, down.region());
                        lemma_within_keeps_disjoint(dp[j - 1 - rp.len()].1, down.region(), leaf);
                    }
                }
            }
            assert forall|i: int, j: int| 0 <= i < j < free.len() implies (
            #[trigger] free[i]).disjoint(#[trigger] free[j]) by {
                if j < rf.len() {
                    assert(free[i] == rf[i] && free[j] == rf[j]);
                } else if i < rf.len() {
                    assert(free[i] == rf[i] && free[j] == df[j - rf.len()]);
                    lemma_within_keeps_disjoint(rf[i], right.region(), down.region());
                    lemma_within_keeps_disjoint(df[j - rf.len()], down.region(), rf[i]);
                } else {
                    assert(free[i] == df[i - rf.len()] && free[j] == df[j - rf.len()]);
                }
            }
        },
    }
}

/// An item fits exactly when some free region is large enough for it, and
/// it is then placed in the corner of such a region.
pub proof fn lemma_fits_iff_free_region<T>(tree: Tree2d<T>, width: u32, height: u32)
    requires
        tree.wf(),
    ensures
        tree.fits(width, height) <==> exists|i: int|
            0 <= i < tree.free().len() && (#[trigger] tree.free()[i]).spec_can_contain(
                width,
                height,
            ),
        tree.fits(width, height) ==> exists|i: int|
            0 <= i < tree.free().len() && (#[trigger] tree.free()[i]).spec_can_contain(
                width,
                height,
            ) && tree.spot(width, height) == corner(tree.free()[i], width, height),
    decreases tree,
{
    match tree {
        Tree2d::Leaf { bb } => {
            assert(tree.free()[0] == bb);
        },
        Tree2d::Node { bb, right, down, .. } => {
            let item = tree.item();
            lemma_split_partitions(bb, item.width, item.height);
            lemma_free_within(tree);
            lemma_fits_iff_free_region(*right, width, height);
            lemma_fits_iff_free_region(*down, width, height);
            let r = right.free();
            let d = down.free();
            let all = tree.free();
            assert(all == r + d);
            if tree.fits(width, height) {
                if tree.goes_down(width, height) {
                    let i = choose|i: int|
                        0 <= i < d.len() && (#[trigger] d[i]).spec_can_contain(width, height)
                            && down.spot(width, height) == corner(d[i], width, height);
                    assert(all[r.len() + i] == d[i]);
                } else {
                    let i = choose|i: int|
                        0 <= i < r.len() && (#[trigger] r[i]).spec_can_contain(width, height)
                            && right.spot(width, height) == corner(r[i], width, height);
                    assert(all[i] == r[i]);
                }
            }
            if exists|i: int|
                0 <= i < all.len() && (#[trigger] all[i]).spec_can_contain(width, height) {
                let i = choose|i: int|
                    0 <= i < all.len() && (#[trigger] all[i]).spec_can_contain(width, height);
                assert(all[i].within(bb));
                if i < r.len() {
                    assert(all[i] == r[i]);
                } else {
                    assert(all[i] == d[i - r.len()]);
                }
            }
        },
    }
}

/// An insertion turns exactly one free region into a node: the region is
/// large enough for the item, the item gets its corner, the two strips that
/// the item leaves take the region's place among the free regions, and every
/// other free region stays as it is.
pub proof fn lemma_inserted_splits_one_leaf<T>(
    tree: Tree2d<T>,
    width: u32,
    height: u32,
    data: Rc<T>,
)
    requires
        tree.wf(),
        tree.fits(width, height),
    ensures
        0 <= tree.leaf_slot(width, height) < tree.free().len(),
        tree.free()[tree.leaf_slot(width, height)].spec_can_contain(width, height),
        tree.spot(width, height) == corner(
            tree.free()[tree.leaf_slot(width, height)],
            width,
            height,
        ),
        tree.inserted(width, height, data).free() == tree.free().take(
            tree.leaf_slot(width, height),
        ) + seq![
            split(tree.free()[tree.leaf_slot(width, height)], width, height).0,
            split(tree.free()[tree.leaf_slot(width, height)], width, height).1,
        ] + tree.free().skip(tree.leaf_slot(width, height) + 1),
    decreases tree,
{
    match tree {
        Tree2d::Leaf { bb } => {
            reveal_with_fuel(Tree2d::free, 3);
            let node = tree.inserted(width, height, data);
            assert(node.free() =~= seq![split(bb, width, height).0, split(bb, width, height).1]);
            assert(tree.free() =~= seq![bb]);
            assert(node.free() =~= tree.free().take(0) + seq![
                split(bb, width, height).0,
                split(bb, width, height).1,
            ] + tree.free().skip(1));
        },
        Tree2d::Node { bb, right, down, data: held } => {
            let r = right.free();
            let d = down.free();
            let node = tree.inserted(width, height, data);
            if tree.goes_down(width, height) {
                lemma_inserted_splits_one_leaf(*down, width, height, data);
                let k = down.leaf_slot(width, height);
                let strips = seq![split(d[k], width, height).0, split(d[k], width, height).1];
                assert((r + d)[r.len() + k] == d[k]);
                assert(node.free() == r + down.inserted(width, height, data).free());
                assert(r + (d.take(k) + strips + d.skip(k + 1)) =~= (r + d).take(r.len() + k)
                    + strips + (r + d).skip(r.len() + k + 1));
            } else {
                lemma_inserted_splits_one_leaf(*right, width, height, data);
                let k = right.leaf_slot(width, height);
                let strips = seq![split(r[k], width, height).0, split(r[k], width, height).1];
                assert((r + d)[k] == r[k]);
                assert(node.free() == right.inserted(width, height, data).free() + d);
                assert((r.take(k) + strips + r.skip(k + 1)) + d =~= (r + d).take(k) + strips + (r
                    + d).skip(k + 1));
            }
        },
    }
}

/// An insertion adds one node and moves none: the regions and the footprints
/// of the new tree are those of the old one with one pair put in at `slot`.
/// The new region is that of the free leaf that took the item; the new
/// footprint lies in its corner and has the size that was asked for.
pub proof fn lemma_inserted_adds_one<T>(tree: Tree2d<T>, width: u32, height: u32, data: Rc<T>)
    requires
        tree.wf(),
        tree.fits(width, height),
    ensures
        0 <= tree.slot(width, height) <= tree.regions().len(),
        tree.regions().len() == tree.footprints().len(),
        0 <= tree.leaf_slot(width, height) < tree.free().len(),
        tree.inserted(width, height, data).regions() == tree.regions().insert(
            tree.slot(width, height),
            (data, tree.free()[tree.leaf_slot(width, height)]),
        ),
        tree.inserted(width, height, data).footprints() == tree.footprints().insert(
            tree.slot(width, height),
            (data, tree.spot(width, height)),
        ),
        tree.spot(width, height).width == width,
        tree.spot(width, height).height == height,
        tree.inserted(width, height, data).region() == tree.region(),
        tree.inserted(width, height, data).wf(),
    decreases tree,
{
    lemma_inserted_splits_one_leaf(tree, width, height, data);
    lemma_same_count(tree);
    match tree {
        Tree2d::Leaf { bb } => {
            let node = tree.inserted(width, height, data);
            lemma_split_partitions(bb, width, height);
            assert(node.item() == corner(bb, width, height));
            reveal_with_fuel(Tree2d::footprints, 2);
            reveal_with_fuel(Tree2d::regions, 2);
            reveal_with_fuel(Tree2d::wf, 2);
            assert(tree.free()[0] == bb);
            assert(node.footprints() =~= seq![(data, corner(bb, width, height))]);
            assert(node.footprints() =~= tree.footprints().insert(
                0,
                (data, corner(bb, width, height)),
            ));
            assert(node.regions() =~= seq![(data, bb)]);
            assert(node.regions() =~= tree.regions().insert(0, (data, bb)));
        },
        Tree2d::Node { bb, right, down, data: held } => {
            let node = tree.inserted(width, height, data);
            let r = right.footprints();
            let d = down.footprints();
            let rr = right.regions();
            let dr = down.regions();
            let head = seq![(held, tree.item())];
            let top = seq![(held, bb)];
            lemma_same_count(*right);
            lemma_same_count(*down);
            if tree.goes_down(width, height) {
                lemma_inserted_adds_one(*down, width, height, data);
                let k = down.slot(width, height);
                let leaf = down.free()[down.leaf_slot(width, height)];
                assert(tree.free()[tree.leaf_slot(width, height)] == leaf);
                let new_down = down.inserted(width, height, data);
                assert(node.item() == tree.item());
                assert(node.footprints() == head + r + new_down.footprints());
                assert(head + r + d.insert(k, (data, down.spot(width, height))) =~= (head + r
                    + d).insert(1 + r.len() + k, (data, down.spot(width, height))));
                assert(node.regions() == top + rr + new_down.regions());
                assert(top + rr + dr.insert(k, (data, leaf)) =~= (top + rr + dr).insert(
                    1 + rr.len() + k,
                    (data, leaf),
                ));
            } else {
                lemma_inserted_adds_one(*right, width, height, data);
                let k = right.slot(width, height);
                let leaf = right.free()[right.leaf_slot(width, height)];
                assert(tree.free()[tree.leaf_slot(width, height)] == leaf);
                let new_right = right.inserted(width, height, data);
                assert(node.item() == tree.item());
                assert(node.footprints() == head + new_right.footprints() + d);
                assert(head + r.insert(k, (data, right.spot(width, height))) + d =~= (head + r
                    + d).insert(1 + k, (data, right.spot(width, height))));
                assert(node.regions() == top + new_right.regions() + dr);
                assert(top + rr.insert(k, (data, leaf)) + dr =~= (top + rr + dr).insert(
                    1 + k,
                    (data, leaf),
                ));
            }
        },
    }
}

/// A tree has as many footprints as regions: one of each for every node.
pub proof fn lemma_same_count<T>(tree: Tree2d<T>)
    ensures
        tree.regions().len() == tree.footprints().len(),
    decreases tree,
{
    match tree {
        Tree2d::Leaf { .. } => {},
        Tree2d::Node { right, down, .. } => {
            lemma_same_count(*right);
            lemma_same_count(*down);
        },
    }
}

/// Flattening only reads the tree: two calls on the same tree give the same
/// pairs in the same order.
pub proof fn lemma_flatten_twice<T>(
    tree: &Tree2d<T>,
    first: Vec<(Rc<T>, BoundingBox)>,
    second: Vec<(Rc<T>, BoundingBox)>,
)
    requires
        call_ensures(Tree2d::<T>::flatten, (tree,), first),
        call_ensures(Tree2d::<T>::flatten, (tree,), second),
    ensures
        first@ == second@,
{
}

/// The area that the placed items of a tree take, all together.
pub open spec fn placed_area<T>(tree: Tree2d<T>) -> int
    decreases tree,
{
    match tree {
        Tree2d::Leaf { .. } => 0,
        Tree2d::Node { right, down, .. } => tree.item().spec_area() + placed_area(*right)
            + placed_area(*down),
    }
}

/// The area that the free regions of a tree take, all together.
pub open spec fn free_area<T>(tree: Tree2d<T>) -> int
    decreases tree,
{
    match tree {
        Tree2d::Leaf { bb } => bb.spec_area(),
        Tree2d::Node { right, down, .. } => free_area(*right) + free_area(*down),
    }
}

/// The placed items and the free regions cover the region of a tree with no
/// gap: together they have exactly its area, and by `lemma_no_overlap` and
/// `lemma_free_is_clear` no two of them overlap.
pub proof fn lemma_tree_covers_region<T>(tree: Tree2d<T>)
    requires
        tree.wf(),
    ensures
        placed_area(tree) + free_area(tree) == tree.region().spec_area(),
    decreases tree,
{
    match tree {
        Tree2d::Leaf { .. } => {},
        Tree2d::Node { bb, right, down, .. } => {
            let item = tree.item();
            lemma_split_partitions(bb, item.width, item.height);
            lemma_tree_covers_region(*right);
            lemma_tree_covers_region(*down);
            assert(item == corner(bb, item.width, item.height));
        },
    }
}

} // verus!
