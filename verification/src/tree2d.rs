//! Axis-aligned rectangles and the guillotine packing tree.

use crate::laws::{
    lemma_fits_iff_free_region, lemma_footprints_within, lemma_inserted_adds_one,
    lemma_inserted_splits_one_leaf, lemma_no_overlap,
};
use crate::packer::PackError;
use std::rc::Rc;
use vstd::prelude::*;

verus! {

/// An axis-aligned rectangle. The origin is the top-left corner of the sheet,
/// `x` grows to the right and `y` grows downwards.
#[derive(Debug, PartialEq, Eq, Clone, Copy, Structural)]
pub struct BoundingBox {
    pub x: u32,
    pub y: u32,
    pub width: u32,
    pub height: u32,
}

impl BoundingBox {
    /// The x coordinate just past the right edge.
    pub open spec fn x_end(self) -> int {
        self.x + self.width
    }

    /// The y coordinate just past the bottom edge.
    pub open spec fn y_end(self) -> int {
        self.y + self.height
    }

    /// Both far edges are representable coordinates.
    pub open spec fn wf(self) -> bool {
        self.x_end() <= u32::MAX && self.y_end() <= u32::MAX
    }

    pub open spec fn spec_area(self) -> int {
        self.width * self.height
    }

    pub open spec fn spec_perimeter(self) -> int {
        2 * (self.width + self.height)
    }

    pub open spec fn spec_can_contain(self, width: u32, height: u32) -> bool {
        width <= self.width && height <= self.height
    }

    /// `self` lies inside `outer`, edges included.
    pub open spec fn within(self, outer: BoundingBox) -> bool {
        &&& outer.x <= self.x
        &&& outer.y <= self.y
        &&& self.x_end() <= outer.x_end()
        &&& self.y_end() <= outer.y_end()
    }

    /// The two rectangles share no point of positive area: one lies wholly
    /// to the left of, to the right of, above or below the other.
    pub open spec fn disjoint(self, other: BoundingBox) -> bool {
        ||| self.x_end() <= other.x
        ||| other.x_end() <= self.x
        ||| self.y_end() <= other.y
        ||| other.y_end() <= self.y
    }

    /// The smallest rectangle that contains both `self` and `other`.
    pub open spec fn spec_union(self, other: BoundingBox) -> BoundingBox {
        let x = if self.x <= other.x { self.x } else { other.x };
        let y = if self.y <= other.y { self.y } else { other.y };
        let x_end = if self.x_end() >= other.x_end() { self.x_end() } else { other.x_end() };
        let y_end = if self.y_end() >= other.y_end() { self.y_end() } else { other.y_end() };
        BoundingBox { x, y, width: (x_end - x) as u32, height: (y_end - y) as u32 }
    }

    /// `width * height`. The product of two `u32` always fits in a `u64`.
    pub fn area(&self) -> (a: u64)
        ensures
            a == self.spec_area(),
    {
        assert(self.width * self.height <= u32::MAX * u32::MAX) by (nonlinear_arith)
            requires
                self.width <= u32::MAX,
                self.height <= u32::MAX,
        ;
        (self.width as u64) * (self.height as u64)
    }

    /// `2 * (width + height)`.
    pub fn perimeter(&self) -> (p: u64)
        ensures
            p == self.spec_perimeter(),
    {
        (self.width as u64) * 2 + (self.height as u64) * 2
    }

    /// Whether an item of the given size fits inside this rectangle.
    pub fn can_contain(&self, width: u32, height: u32) -> (fits: bool)
        ensures
            fits == self.spec_can_contain(width, height),
    {
        width <= self.width && height <= self.height
    }

    /// Whether this rectangle has exactly the given size.
    pub fn same_shape(&self, width: u32, height: u32) -> (same: bool)
        ensures
            same == (width == self.width && height == self.height),
    {
        width == self.width && height == self.height
    }

    /// The smallest rectangle that contains both `self` and `other`.
    pub fn union(&self, other: &BoundingBox) -> (u: BoundingBox)
        requires
            self.wf(),
            other.wf(),
        ensures
            u == self.spec_union(*other),
            u.wf(),
            self.within(u),
            other.within(u),
    {
        let x: u32 = if self.x <= other.x { self.x } else { other.x };
        let y: u32 = if self.y <= other.y { self.y } else { other.y };
        let self_x_end: u32 = self.x + self.width;
        let other_x_end: u32 = other.x + other.width;
        let self_y_end: u32 = self.y + self.height;
        let other_y_end: u32 = other.y + other.height;
        let x_end: u32 = if self_x_end >= other_x_end { self_x_end } else { other_x_end };
        let y_end: u32 = if self_y_end >= other_y_end { self_y_end } else { other_y_end };
        BoundingBox { x, y, width: x_end - x, height: y_end - y }
    }
}

impl std::ops::Add<&BoundingBox> for &BoundingBox {
    type Output = BoundingBox;

    /// `&a + &b` is the union of the two rectangles, as `a.union(&b)` is.
    fn add(self, v: &BoundingBox) -> (u: BoundingBox) {
        self.union(v)
    }
}

impl vstd::std_specs::ops::AddSpecImpl<&BoundingBox> for &BoundingBox {
    open spec fn obeys_add_spec() -> bool {
        true
    }

    open spec fn add_req(self, v: &BoundingBox) -> bool {
        self.wf() && v.wf()
    }

    open spec fn add_spec(self, v: &BoundingBox) -> BoundingBox {
        self.spec_union(*v)
    }
}

/// The two free strips that are left of `bb` once an item of the given size
/// sits in its top-left corner: first the strip to the right of the item,
/// then the strip below it.
///
/// Where more is left over below than beside the item, the strip below takes
/// the full width of `bb` and the strip to the right is as high as the item;
/// otherwise the strip to the right takes the full height and the strip below
/// is as wide as the item.
pub open spec fn split(bb: BoundingBox, width: u32, height: u32) -> (BoundingBox, BoundingBox)
    recommends
        bb.wf(),
        bb.spec_can_contain(width, height),
{
    let width_remainder = (bb.width - width) as u32;
    let height_remainder = (bb.height - height) as u32;
    if height_remainder > width_remainder {
        (
            BoundingBox { x: (bb.x + width) as u32, y: bb.y, width: width_remainder, height },
            BoundingBox {
                x: bb.x,
                y: (bb.y + height) as u32,
                width: bb.width,
                height: height_remainder,
            },
        )
    } else {
        (
            BoundingBox {
                x: (bb.x + width) as u32,
                y: bb.y,
                width: width_remainder,
                height: bb.height,
            },
            BoundingBox { x: bb.x, y: (bb.y + height) as u32, width, height: height_remainder },
        )
    }
}

/// A guillotine packing tree. A `Leaf` is a free region. A `Node` is a region
/// that hosts one item in its top-left corner; what the item leaves free is
/// split between the two children.
pub enum Tree2d<T> {
    Leaf { bb: BoundingBox },
    Node { bb: BoundingBox, right: Box<Tree2d<T>>, down: Box<Tree2d<T>>, data: Rc<T> },
}

impl<T> Tree2d<T> {
    /// The region that this subtree covers.
    pub open spec fn region(self) -> BoundingBox {
        match self {
            Tree2d::Leaf { bb } => bb,
            Tree2d::Node { bb, .. } => bb,
        }
    }

    /// The rectangle that the item of a `Node` occupies: it starts in the
    /// corner of the node's region and ends where the two strips begin.
    pub open spec fn item(self) -> BoundingBox
        recommends
            self is Node,
    {
        match self {
            Tree2d::Leaf { bb } => BoundingBox { x: bb.x, y: bb.y, width: 0, height: 0 },
            Tree2d::Node { bb, right, down, .. } => BoundingBox {
                x: bb.x,
                y: bb.y,
                width: (right.region().x - bb.x) as u32,
                height: (down.region().y - bb.y) as u32,
            },
        }
    }

    /// The structural invariant: every region is representable, and the two
    /// children of a node cover exactly the strips that its item leaves free.
    pub open spec fn wf(self) -> bool
        decreases self,
    {
        match self {
            Tree2d::Leaf { bb } => bb.wf(),
            Tree2d::Node { bb, right, down, .. } => {
                &&& bb.wf()
                &&& bb.x <= right.region().x
                &&& bb.y <= down.region().y
                &&& bb.spec_can_contain(self.item().width, self.item().height)
                &&& (right.region(), down.region()) == split(
                    bb,
                    self.item().width,
                    self.item().height,
                )
                &&& right.wf()
                &&& down.wf()
            },
        }
    }

    /// Every node's payload with the node's region, in preorder: the node
    /// itself, then its `right` subtree, then its `down` subtree.
    pub open spec fn regions(self) -> Seq<(Rc<T>, BoundingBox)>
        decreases self,
    {
        match self {
            Tree2d::Leaf { .. } => Seq::empty(),
            Tree2d::Node { bb, right, down, data } => seq![(data, bb)] + right.regions()
                + down.regions(),
        }
    }

    /// Every node's payload with the rectangle that its item occupies, in
    /// the same order as `regions`.
    pub open spec fn footprints(self) -> Seq<(Rc<T>, BoundingBox)>
        decreases self,
    {
        match self {
            Tree2d::Leaf { .. } => Seq::empty(),
            Tree2d::Node { right, down, data, .. } => seq![(data, self.item())]
                + right.footprints() + down.footprints(),
        }
    }

    /// Whether some free leaf of this subtree can take an item of the given
    /// size.
    pub open spec fn fits(self, width: u32, height: u32) -> bool
        decreases self,
    {
        match self {
            Tree2d::Leaf { bb } => bb.spec_can_contain(width, height),
            Tree2d::Node { bb, right, down, .. } => bb.spec_can_contain(width, height) && (
            right.fits(width, height) || down.fits(width, height)),
        }
    }

    /// Whether an insertion under this node tries the `down` child before the
    /// `right` child. That is so when `down` alone already hosts an item; in
    /// every other case `right` comes first.
    pub open spec fn down_first(self) -> bool {
        match self {
            Tree2d::Leaf { .. } => false,
            Tree2d::Node { right, down, .. } => *right is Leaf && *down is Node,
        }
    }

    /// The node that takes the place of a free leaf `bb` when an item of the
    /// given size is put into it.
    pub open spec fn partitioned(data: Rc<T>, bb: BoundingBox, width: u32, height: u32) -> Self {
        Tree2d::Node {
            bb,
            right: Box::new(Tree2d::Leaf { bb: split(bb, width, height).0 }),
            down: Box::new(Tree2d::Leaf { bb: split(bb, width, height).1 }),
            data,
        }
    }

    /// The tree after an item of the given size has been inserted; the tree
    /// itself where the item does not fit.
    pub open spec fn inserted(self, width: u32, height: u32, data: Rc<T>) -> Self
        decreases self,
    {
        match self {
            Tree2d::Leaf { bb } => if bb.spec_can_contain(width, height) {
                Self::partitioned(data, bb, width, height)
            } else {
                self
            },
            Tree2d::Node { bb, right, down, data: held } => if !self.fits(width, height) {
                self
            } else if self.goes_down(width, height) {
                Tree2d::Node {
                    bb,
                    right,
                    down: Box::new(down.inserted(width, height, data)),
                    data: held,
                }
            } else {
                Tree2d::Node {
                    bb,
                    right: Box::new(right.inserted(width, height, data)),
                    down,
                    data: held,
                }
            },
        }
    }

    /// Whether an insertion of an item of the given size under this node
    /// ends in the `down` child: `down` is tried first and takes the item, or
    /// `right` cannot take it.
    pub open spec fn goes_down(self, width: u32, height: u32) -> bool {
        match self {
            Tree2d::Leaf { .. } => false,
            Tree2d::Node { right, down, .. } => (self.down_first() && down.fits(width, height))
                || !right.fits(width, height),
        }
    }

    /// The rectangle that an item of the given size gets when it is inserted:
    /// the corner of the free leaf that takes it.
    pub open spec fn spot(self, width: u32, height: u32) -> BoundingBox
        recommends
            self.fits(width, height),
        decreases self,
    {
        match self {
            Tree2d::Leaf { bb } => BoundingBox { x: bb.x, y: bb.y, width, height },
            Tree2d::Node { right, down, .. } => if self.goes_down(width, height) {
                down.spot(width, height)
            } else {
                right.spot(width, height)
            },
        }
    }

    /// The index in `regions`, and in `footprints`, at which an inserted item
    /// of the given size appears.
    pub open spec fn slot(self, width: u32, height: u32) -> int
        recommends
            self.fits(width, height),
        decreases self,
    {
        match self {
            Tree2d::Leaf { .. } => 0,
            Tree2d::Node { right, down, .. } => if self.goes_down(width, height) {
                1 + right.regions().len() + down.slot(width, height)
            } else {
                1 + right.slot(width, height)
            },
        }
    }

    /// The index in `free` of the leaf that takes an inserted item of the
    /// given size.
    pub open spec fn leaf_slot(self, width: u32, height: u32) -> int
        recommends
            self.fits(width, height),
        decreases self,
    {
        match self {
            Tree2d::Leaf { .. } => 0,
            Tree2d::Node { right, down, .. } => if self.goes_down(width, height) {
                right.free().len() + down.leaf_slot(width, height)
            } else {
                right.leaf_slot(width, height)
            },
        }
    }

    /// The free regions of the tree: its leaves, those under `right` before
    /// those under `down`.
    pub open spec fn free(self) -> Seq<BoundingBox>
        decreases self,
    {
        match self {
            Tree2d::Leaf { bb } => seq![bb],
            Tree2d::Node { right, down, .. } => right.free() + down.free(),
        }
    }

    /// A tree that is one free region of the given size, with its corner at
    /// the origin.
    pub fn new(width: u32, height: u32) -> (tree: Self)
        requires
            width > 0,
            height > 0,
        ensures
            tree == (Tree2d::<T>::Leaf { bb: BoundingBox { x: 0, y: 0, width, height } }),
            tree.wf(),
            tree.regions() == Seq::<(Rc<T>, BoundingBox)>::empty(),
            tree.footprints() == Seq::<(Rc<T>, BoundingBox)>::empty(),
    {
        Tree2d::Leaf { bb: BoundingBox { x: 0, y: 0, width, height } }
    }

    /// A tree that is one free region of the given size, with its corner at
    /// the origin, or `InvalidCanvas` where the region would have no area.
    pub fn try_new(width: u32, height: u32) -> (tree: Result<Self, PackError>)
        ensures
            width == 0 || height == 0 <==> tree matches Err(PackError::InvalidCanvas),
            width > 0 && height > 0 <==> tree is Ok,
            tree matches Ok(t) ==> {
                &&& t == (Tree2d::<T>::Leaf { bb: BoundingBox { x: 0, y: 0, width, height } })
                &&& t.wf()
                &&& t.regions() == Seq::<(Rc<T>, BoundingBox)>::empty()
                &&& t.footprints() == Seq::<(Rc<T>, BoundingBox)>::empty()
            },
    {
        if width == 0 || height == 0 {
            Err(PackError::InvalidCanvas)
        } else {
            Ok(Self::new(width, height))
        }
    }

    /// Puts an item of the given size into the free region `bb`.
    pub fn partition(data: Rc<T>, bb: BoundingBox, width: u32, height: u32) -> (node: Self)
        requires
            bb.wf(),
            bb.spec_can_contain(width, height),
        ensures
            node == Self::partitioned(data, bb, width, height),
            node.wf(),
            node.item() == (BoundingBox { x: bb.x, y: bb.y, width, height }),
    {
        let width_remainder = bb.width - width;
        let height_remainder = bb.height - height;

        let (bb_right, bb_down) = if height_remainder > width_remainder {
            (
                BoundingBox { x: bb.x + width, y: bb.y, width: width_remainder, height },
                BoundingBox {
                    x: bb.x,
                    y: bb.y + height,
                    width: bb.width,
                    height: height_remainder,
                },
            )
        } else {
            (
                BoundingBox {
                    x: bb.x + width,
                    y: bb.y,
                    width: width_remainder,
                    height: bb.height,
                },
                BoundingBox { x: bb.x, y: bb.y + height, width, height: height_remainder },
            )
        };

        let right: Tree2d<T> = Tree2d::Leaf { bb: bb_right };
        let down: Tree2d<T> = Tree2d::Leaf { bb: bb_down };
        assert(right.wf() && down.wf());
        Tree2d::Node { bb, right: Box::new(right), down: Box::new(down), data }
    }

    /// Whether this subtree is a node, that is, hosts an item at its root.
    pub fn is_node(&self) -> (yes: bool)
        ensures
            yes == (*self is Node),
    {
        match self {
            Tree2d::Leaf { .. } => false,
            Tree2d::Node { .. } => true,
        }
    }

    /// Tries to place an item of the given size in this subtree.
    ///
    /// A free leaf takes the item if it is large enough. A node whose region
    /// is too small gives up at once; otherwise it hands the item to its
    /// children, first to the one that `down_first` names, then to the other.
    pub fn insert_aux(&mut self, width: u32, height: u32, data: Rc<T>) -> (placed: bool)
        requires
            old(self).wf(),
        ensures
            placed == old(self).fits(width, height),
            *final(self) == old(self).inserted(width, height, data),
            !placed ==> *final(self) == *old(self),
            placed ==> 0 <= old(self).slot(width, height) <= old(self).regions().len(),
            placed ==> 0 <= old(self).leaf_slot(width, height) < old(self).free().len(),
            placed ==> final(self).regions() == old(self).regions().insert(
                old(self).slot(width, height),
                (data, old(self).free()[old(self).leaf_slot(width, height)]),
            ),
            placed ==> final(self).footprints() == old(self).footprints().insert(
                old(self).slot(width, height),
                (data, old(self).spot(width, height)),
            ),
            final(self).wf(),
            final(self).region() == old(self).region(),
        decreases *old(self),
    {
        proof {
            if self.fits(width, height) {
                lemma_inserted_adds_one(*self, width, height, data);
            }
        }
        match self {
            Tree2d::Leaf { bb } => {
                if bb.can_contain(width, height) {
                    let region = *bb;
                    *self = Self::partition(data, region, width, height);
                    true
                } else {
                    false
                }
            },
            Tree2d::Node { bb, right, down, .. } => {
                if bb.can_contain(width, height) {
                    if !right.is_node() && down.is_node() {
                        if down.insert_aux(width, height, share(&data)) {
                            true
                        } else {
                            right.insert_aux(width, height, data)
                        }
                    } else {
                        if right.insert_aux(width, height, share(&data)) {
                            true
                        } else {
                            down.insert_aux(width, height, data)
                        }
                    }
                } else {
                    false
                }
            },
        }
    }

    /// The region that this subtree covers.
    pub fn bounds(&self) -> (bb: BoundingBox)
        ensures
            bb == self.region(),
    {
        match self {
            Tree2d::Leaf { bb } => *bb,
            Tree2d::Node { bb, .. } => *bb,
        }
    }

    /// Appends every node's payload with the node's region to `output`, in
    /// preorder, and hands `output` back.
    pub fn flatten_aux<'a>(&self, output: &'a mut Vec<(Rc<T>, BoundingBox)>) -> (appended:
        &'a mut Vec<(Rc<T>, BoundingBox)>)
        ensures
            appended@ == old(output)@ + self.regions(),
            *final(output) == *final(appended),
        decreases self,
    {
        match self {
            Tree2d::Leaf { .. } => output,
            Tree2d::Node { bb, right, down, data } => {
                output.push((share(data), *bb));
                right.flatten_aux(output);
                down.flatten_aux(output);
                output
            },
        }
    }

    /// Every node's payload with the node's region, in preorder: a node,
    /// then its `right` subtree, then its `down` subtree. The tree is only
    /// read.
    pub fn flatten(&self) -> (output: Vec<(Rc<T>, BoundingBox)>)
        ensures
            output@ == self.regions(),
    {
        let mut output: Vec<(Rc<T>, BoundingBox)> = Vec::new();

        self.flatten_aux(&mut output);

        output
    }

    /// Appends every node's payload with the rectangle of its item to
    /// `output`, in preorder.
    pub fn flatten_footprints_aux(&self, output: &mut Vec<(Rc<T>, BoundingBox)>)
        requires
            self.wf(),
        ensures
            final(output)@ == old(output)@ + self.footprints(),
        decreases self,
    {
        match self {
            Tree2d::Leaf { .. } => {},
            Tree2d::Node { bb, right, down, data } => {
                let item = BoundingBox {
                    x: bb.x,
                    y: bb.y,
                    width: right.bounds().x - bb.x,
                    height: down.bounds().y - bb.y,
                };
                output.push((share(data), item));
                right.flatten_footprints_aux(output);
                down.flatten_footprints_aux(output);
            },
        }
    }

    /// Every node's payload with the rectangle that its item occupies, in the
    /// order of `flatten`. The rectangle has the size that the item was
    /// inserted with and lies in the corner of the node's region. No two of
    /// the rectangles overlap, and all lie inside the region of the tree.
    pub fn flatten_footprints(&self) -> (output: Vec<(Rc<T>, BoundingBox)>)
        requires
            self.wf(),
        ensures
            output@ == self.footprints(),
            forall|i: int, j: int|
                0 <= i < j < output.len() ==> (#[trigger] output[i]).1.disjoint(
                    (#[trigger] output[j]).1,
                ),
            forall|i: int| 0 <= i < output.len() ==> (#[trigger] output[i]).1.within(self.region()),
    {
        let mut output: Vec<(Rc<T>, BoundingBox)> = Vec::new();

        self.flatten_footprints_aux(&mut output);

        proof {
            lemma_no_overlap(*self);
            lemma_footprints_within(*self);
        }
        output
    }

    /// Tries to place an item of the given size in the tree. Returns whether
    /// it was placed; the tree is unchanged where it was not.
    ///
    /// Where it was placed, one free leaf has become a node over the same
    /// region, and `flatten` gives what it gave before with the new payload
    /// and that region put in at `slot`.
    pub fn insert(&mut self, width: u32, height: u32, data: T) -> (placed: bool)
        requires
            old(self).wf(),
        ensures
            placed == old(self).fits(width, height),
            placed <==> exists|i: int|
                0 <= i < old(self).free().len() && (
                #[trigger] old(self).free()[i]).spec_can_contain(width, height),
            *final(self) == old(self).inserted(width, height, Rc::new(data)),
            !placed ==> *final(self) == *old(self),
            placed ==> 0 <= old(self).slot(width, height) <= old(self).regions().len(),
            placed ==> 0 <= old(self).leaf_slot(width, height) < old(self).free().len(),
            placed ==> old(self).free()[old(self).leaf_slot(width, height)].spec_can_contain(
                width,
                height,
            ),
            placed ==> final(self).regions() == old(self).regions().insert(
                old(self).slot(width, height),
                (Rc::new(data), old(self).free()[old(self).leaf_slot(width, height)]),
            ),
            placed ==> final(self).regions().len() == old(self).regions().len() + 1,
            placed ==> final(self).footprints() == old(self).footprints().insert(
                old(self).slot(width, height),
                (Rc::new(data), old(self).spot(width, height)),
            ),
            placed ==> final(self).free() == old(self).free().take(
                old(self).leaf_slot(width, height),
            ) + seq![
                split(old(self).free()[old(self).leaf_slot(width, height)], width, height).0,
                split(old(self).free()[old(self).leaf_slot(width, height)], width, height).1,
            ] + old(self).free().skip(old(self).leaf_slot(width, height) + 1),
            final(self).wf(),
            final(self).region() == old(self).region(),
    {
        proof {
            lemma_fits_iff_free_region(*self, width, height);
            if self.fits(width, height) {
                lemma_inserted_splits_one_leaf(*self, width, height, Rc::new(data));
            }
        }
        self.insert_aux(width, height, Rc::new(data))
    }
}

/// `Rc::clone`: another handle to the same value. The new handle is equal to
/// the old one, since a handle is compared by what it points to.
#[verifier::external_body]
fn share<T>(data: &Rc<T>) -> (handle: Rc<T>)
    ensures
        handle == *data,
{
    Rc::clone(data)
}

} // verus!
