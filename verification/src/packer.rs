//! Packing a set of sized items into one sheet.
//!
//! The items are packed largest first into a guillotine tree over a canvas.
//! Where an item finds no room the canvas grows and the packing starts over,
//! until everything is placed or the canvas can grow no further.


use crate::atlas::{pack_images, packs, Atlas};
use crate::canvas::{grow, grown, room, valid_canvas, MAX_CANVAS_SIDE};
use crate::collection::{estimated_side, tallest, widest, ImageCollection};
use crate::laws::{lemma_inserted_adds_one, lemma_no_overlap, lemma_footprints_within};
use crate::sheet::{
    arranged, bounding_box, contained, lemma_bounding_box_contains, lemma_bounding_box_is_tight,
    no_overlap, read_sheet, rects, sheet_of, PackedSheet, Placement,
};
use crate::sorting::{lemma_sorted_by_area, sorted_by_area};
use crate::tree2d::{BoundingBox, Tree2d};
use image::DynamicImage;
use std::rc::Rc;
use vstd::multiset::Multiset;
use vstd::prelude::*;

verus! {

/// The padding of a configuration that names none.
pub const DEFAULT_PADDING: u8 = 2;

/// What the command line asks for: where the images are, where the sheet
/// goes, and how much room to leave around each image.
#[derive(Debug)]
pub struct Config {
    pub padding: u8,
    pub input_dir: String,
    pub output_file: String,
}

impl Config {
    /// Reads the configuration off the command line: the program's name,
    /// then the input directory, then the output file. Further arguments are
    /// ignored. With fewer than three arguments the usage message is the
    /// error.
    pub fn parse(args: &[String]) -> (config: Result<Config, &'static str>)
        ensures
            args@.len() < 3 ==> config is Err && config->Err_0@
                == "Too few arguments, call like: `corral input_dir output_sheet.png`"@,
            args@.len() >= 3 ==> config is Ok && config->Ok_0.padding == DEFAULT_PADDING
                && config->Ok_0.input_dir@ == args@[1]@ && config->Ok_0.output_file@
                == args@[2]@,
    {
        if args.len() < 3 {
            return Err("Too few arguments, call like: `corral input_dir output_sheet.png`");
        }
        let input_dir = args[1].clone();
        let output_file = args[2].clone();

        Ok(Config { padding: DEFAULT_PADDING, input_dir, output_file })
    }
}

/// An item to pack: its size, and a handle by which the caller knows it.
/// The packer never looks at the handle.
#[derive(Debug)]
pub struct PackingItem<T> {
    pub width: u32,
    pub height: u32,
    pub payload: T,
}

/// Why a packing failed.
#[derive(Debug, PartialEq, Eq, Clone, Copy, Structural)]
pub enum PackError {
    /// The initial canvas has a side of zero or one longer than
    /// `MAX_CANVAS_SIDE`.
    InvalidCanvas,
    /// One item alone, with its padding, is wider or higher than any canvas
    /// may be.
    ItemTooLarge,
    /// The canvas has grown to `MAX_CANVAS_SIDE` on both sides and the items
    /// still do not all fit.
    CanvasTooLarge,
    /// An image holds floating-point pixels, which cannot be drawn. Only the
    /// drawing of a sheet fails so, never its packing.
    UnsupportedImage,
}

impl PackError {
    /// What went wrong, in words.
    pub fn message(&self) -> (text: &'static str)
        ensures
            text@ == match *self {
                PackError::InvalidCanvas => "the canvas is empty or longer than the limit"@,
                PackError::ItemTooLarge => "an image is larger than any canvas may be"@,
                PackError::CanvasTooLarge => "the images do not fit on the largest canvas"@,
                PackError::UnsupportedImage => "an image holds floating-point pixels"@,
            },
    {
        match self {
            PackError::InvalidCanvas => "the canvas is empty or longer than the limit",
            PackError::ItemTooLarge => "an image is larger than any canvas may be",
            PackError::CanvasTooLarge => "the images do not fit on the largest canvas",
            PackError::UnsupportedImage => "an image holds floating-point pixels",
        }
    }
}

impl<T: Copy> Clone for PackingItem<T> {
    fn clone(&self) -> (copy: Self)
        ensures
            copy == *self,
    {
        *self
    }
}

impl<T: Copy> Copy for PackingItem<T> {

}

impl<T> PackingItem<T> {
    pub open spec fn spec_area(self) -> int {
        self.width * self.height
    }

    /// The width that the item takes on the sheet: its own and the padding.
    pub open spec fn footprint_width(self, padding: u32) -> int {
        self.width + padding
    }

    /// The height that the item takes on the sheet: its own and the padding.
    pub open spec fn footprint_height(self, padding: u32) -> int {
        self.height + padding
    }

    /// Whether the item with its padding is larger than any canvas may be.
    pub open spec fn too_large(self, padding: u32) -> bool {
        self.footprint_width(padding) > MAX_CANVAS_SIDE || self.footprint_height(padding)
            > MAX_CANVAS_SIDE
    }

    /// Whether the tree has room for the item with its padding.
    pub open spec fn fits_in(self, tree: Tree2d<T>, padding: u32) -> bool {
        &&& self.footprint_width(padding) <= u32::MAX
        &&& self.footprint_height(padding) <= u32::MAX
        &&& tree.fits(
            self.footprint_width(padding) as u32,
            self.footprint_height(padding) as u32,
        )
    }

    /// The tree after the item with its padding has been inserted.
    pub open spec fn put_in(self, tree: Tree2d<T>, padding: u32) -> Tree2d<T> {
        tree.inserted(
            self.footprint_width(padding) as u32,
            self.footprint_height(padding) as u32,
            Rc::new(self.payload),
        )
    }

    /// What a placement of this item must show: its handle and the size of
    /// its footprint.
    pub open spec fn stamp(self, padding: u32) -> (T, int, int) {
        (self.payload, self.footprint_width(padding), self.footprint_height(padding))
    }

    /// `width * height`. The product of two `u32` always fits in a `u64`.
    pub fn area(&self) -> (a: u64)
        ensures
            a == self.spec_area(),
    {
        assert(self.width * self.height <= u32::MAX * u32::MAX) by (nonlinear_arith)
            requires
                self.width <= u32::MAX,
                self.height <= u32::MAX,
        ;
        (self.width as u64) * (self.height as u64)
    }
}

/// The handles and footprint sizes that a packing of `items` has to place,
/// each as often as it was asked for.
pub open spec fn wanted<T>(items: Seq<PackingItem<T>>, padding: u32) -> Multiset<(T, int, int)> {
    items.map_values(|item: PackingItem<T>| item.stamp(padding)).to_multiset()
}

/// The handles and rectangle sizes that a tree holds, each as often as it
/// occurs.
pub open spec fn held<T>(tree: Tree2d<T>) -> Multiset<(T, int, int)> {
    tree.footprints().map_values(
        |p: (Rc<T>, BoundingBox)| (*p.0, p.1.width as int, p.1.height as int),
    ).to_multiset()
}

/// The tree and the count of placed items after the items from index `from`
/// on have been inserted in turn, up to the first that finds no room.
pub open spec fn filled<T>(
    tree: Tree2d<T>,
    items: Seq<PackingItem<T>>,
    padding: u32,
    from: int,
) -> (Tree2d<T>, int)
    decreases items.len() - from,
{
    if from < 0 || from >= items.len() || !items[from].fits_in(tree, padding) {
        (tree, from)
    } else {
        filled(items[from].put_in(tree, padding), items, padding, from + 1)
    }
}

/// No items want nothing.
pub proof fn lemma_wanted_nothing<T>(items: Seq<PackingItem<T>>, padding: u32)
    requires
        items.len() == 0,
    ensures
        wanted(items, padding) == Multiset::<(T, int, int)>::empty(),
{
    let stamps = items.map_values(|item: PackingItem<T>| item.stamp(padding));
    vstd::seq_lib::to_multiset_len(stamps);
    vstd::multiset::lemma_multiset_empty_len(stamps.to_multiset());
}

/// Inserting one item that fits keeps the tree well formed over the same
/// region and adds the item's stamp to what the tree holds.
pub proof fn lemma_put_in<T>(item: PackingItem<T>, tree: Tree2d<T>, padding: u32)
    requires
        tree.wf(),
        item.fits_in(tree, padding),
    ensures
        item.put_in(tree, padding).wf(),
        item.put_in(tree, padding).region() == tree.region(),
        held(item.put_in(tree, padding)) == held(tree).insert(item.stamp(padding)),
{
    broadcast use vstd::seq_lib::group_to_multiset_ensures;

    let w = item.footprint_width(padding) as u32;
    let h = item.footprint_height(padding) as u32;
    let data = Rc::new(item.payload);
    lemma_inserted_adds_one(tree, w, h, data);
    let f = |p: (Rc<T>, BoundingBox)| (*p.0, p.1.width as int, p.1.height as int);
    let at = tree.slot(w, h);
    let new = (data, tree.spot(w, h));
    assert(tree.footprints().insert(at, new).map_values(f) =~= tree.footprints().map_values(
        f,
    ).insert(at, f(new)));
}

/// What filling comes to: the count of placed items is the index of the
/// first item without room, or the number of items where all found room; the
/// tree is well formed over the same region and holds, besides what it held,
/// what the placed items want.
pub proof fn lemma_filled<T>(tree: Tree2d<T>, items: Seq<PackingItem<T>>, padding: u32, from: int)
    requires
        tree.wf(),
        0 <= from <= items.len(),
    ensures
        from <= filled(tree, items, padding, from).1 <= items.len(),
        filled(tree, items, padding, from).0.wf(),
        filled(tree, items, padding, from).0.region() == tree.region(),
        held(filled(tree, items, padding, from).0) == held(tree).add(
            wanted(items.subrange(from, filled(tree, items, padding, from).1), padding),
        ),
        filled(tree, items, padding, from).1 < items.len() ==> !items[filled(
            tree,
            items,
            padding,
            from,
        ).1].fits_in(filled(tree, items, padding, from).0, padding),
    decreases items.len() - from,
{
    let stamps = |item: PackingItem<T>| item.stamp(padding);
    if from >= items.len() || !items[from].fits_in(tree, padding) {
        lemma_wanted_nothing(items.subrange(from, from), padding);
        assert(held(tree).add(Multiset::empty()) =~= held(tree));
    } else {
        let item = items[from];
        let next = item.put_in(tree, padding);
        lemma_put_in(item, tree, padding);
        lemma_filled(next, items, padding, from + 1);
        let placed = filled(tree, items, padding, from).1;
        let rest = items.subrange(from + 1, placed).map_values(stamps);
        assert(items.subrange(from, placed).map_values(stamps) =~= rest.insert(
            0,
            item.stamp(padding),
        ));
        vstd::seq_lib::to_multiset_insert(rest, 0, item.stamp(padding));
        assert(held(tree).insert(item.stamp(padding)).add(rest.to_multiset()) =~= held(tree).add(
            rest.to_multiset().insert(item.stamp(padding)),
        ));
    }
}

/// Inserts the items in turn, each with its padding, and stops at the first
/// that finds no room. Returns how many were placed.
pub fn fill<T: Copy>(tree: &mut Tree2d<T>, items: &Vec<PackingItem<T>>, padding: u32) -> (placed:
    usize)
    requires
        old(tree).wf(),
    ensures
        (*final(tree), placed as int) == filled(*old(tree), items@, padding, 0),
        placed <= items.len(),
        placed < items.len() ==> !items[placed as int].fits_in(*final(tree), padding),
        final(tree).wf(),
        final(tree).region() == old(tree).region(),
        held(*final(tree)) == held(*old(tree)).add(wanted(items@.take(placed as int), padding)),
{
    let mut placed: usize = 0;
    while placed < items.len()
        invariant
            placed <= items.len(),
            tree.wf(),
            filled(*tree, items@, padding, placed as int) == filled(*old(tree), items@, padding, 0),
        ensures
            (*tree, placed as int) == filled(*old(tree), items@, padding, 0),
        decreases items.len() - placed,
    {
        let item = items[placed];
        let width = match item.width.checked_add(padding) {
            Some(width) => width,
            None => { break ; },
        };
        let height = match item.height.checked_add(padding) {
            Some(height) => height,
            None => { break ; },
        };
        if !tree.insert(width, height, item.payload) {
            break ;
        }
        placed += 1;
    }
    proof {
        lemma_filled(*old(tree), items@, padding, 0);
        assert(items@.subrange(0, placed as int) =~= items@.take(placed as int));
    }
    placed
}

/// The free canvas of the given size, with its corner at the origin.
pub open spec fn blank<T>(width: u32, height: u32) -> Tree2d<T> {
    Tree2d::Leaf { bb: BoundingBox { x: 0, y: 0, width, height } }
}

/// The tree that holds all the items, found by packing them in their order
/// into the given canvas and, as long as one of them finds no room, into the
/// canvas grown for that item.
pub open spec fn attempted<T>(
    items: Seq<PackingItem<T>>,
    padding: u32,
    width: u32,
    height: u32,
) -> Result<Tree2d<T>, PackError>
    decreases room(width, height),
{
    let (tree, placed) = filled(blank::<T>(width, height), items, padding, 0);
    if placed >= items.len() {
        Ok(tree)
    } else {
        match grown(
            width,
            height,
            items[placed].footprint_width(padding) as u32,
            items[placed].footprint_height(padding) as u32,
        ) {
            None => Err(PackError::CanvasTooLarge),
            Some((w, h)) => attempted(items, padding, w, h),
        }
    }
}

/// Growing and retrying fails in one way only: the canvas can grow no
/// further.
pub proof fn lemma_attempted_fails_at_limit<T>(
    items: Seq<PackingItem<T>>,
    padding: u32,
    width: u32,
    height: u32,
)
    ensures
        attempted(items, padding, width, height) matches Err(e) ==> e == PackError::CanvasTooLarge,
    decreases room(width, height),
{
    let (tree, placed) = filled(blank::<T>(width, height), items, padding, 0);
    if placed < items.len() {
        match grown(
            width,
            height,
            items[placed].footprint_width(padding) as u32,
            items[placed].footprint_height(padding) as u32,
        ) {
            None => {},
            Some((w, h)) => {
                lemma_attempted_fails_at_limit(items, padding, w, h);
            },
        }
    }
}

/// What packing the items in the order given, from the given canvas on,
/// results in.
pub open spec fn packed_in_order<T>(
    items: Seq<PackingItem<T>>,
    padding: u32,
    width: u32,
    height: u32,
) -> Result<(Seq<Placement<T>>, BoundingBox), PackError> {
    if items.len() == 0 {
        Ok((Seq::empty(), BoundingBox { x: 0, y: 0, width: 0, height: 0 }))
    } else if !valid_canvas(width, height) {
        Err(PackError::InvalidCanvas)
    } else if exists|i: int| 0 <= i < items.len() && (#[trigger] items[i]).too_large(padding) {
        Err(PackError::ItemTooLarge)
    } else {
        match attempted(items, padding, width, height) {
            Ok(tree) => Ok(sheet_of(tree)),
            Err(e) => Err(e),
        }
    }
}

/// A result as contracts speak of it: the sheet by its placements and its
/// bounding box.
pub open spec fn outcome<T>(result: Result<PackedSheet<T>, PackError>) -> Result<
    (Seq<Placement<T>>, BoundingBox),
    PackError,
> {
    match result {
        Ok(sheet) => Ok(sheet@),
        Err(e) => Err(e),
    }
}

/// Every item has exactly one placement, with the item's handle and of the
/// size of its footprint, and there is no other placement.
pub open spec fn conserved<T>(
    placements: Seq<Placement<T>>,
    items: Seq<PackingItem<T>>,
    padding: u32,
) -> bool {
    placements.map_values(|p: Placement<T>| p.stamp()).to_multiset() == wanted(items, padding)
}

/// A well-formed tree over a valid canvas that holds what the items want
/// gives a sheet without overlap, inside its bounds, with every item once
/// and with a tight bounding box.
pub proof fn lemma_sheet_of_tree<T>(tree: Tree2d<T>, items: Seq<PackingItem<T>>, padding: u32)
    requires
        tree.wf(),
        tree.region().x == 0,
        tree.region().y == 0,
        valid_canvas(tree.region().width, tree.region().height),
        items.len() > 0,
        !items[0].too_large(padding),
        held(tree) == wanted(items, padding),
    ensures
        no_overlap(sheet_of(tree).0),
        contained(sheet_of(tree).0, sheet_of(tree).1, padding),
        conserved(sheet_of(tree).0, items, padding),
        sheet_of(tree).1 == bounding_box(rects(sheet_of(tree).0)),
        sheet_of(tree).0.len() == items.len(),
{
    let placements = arranged(tree);
    let bb = sheet_of(tree).1;
    let all = rects(placements);
    lemma_no_overlap(tree);
    lemma_footprints_within(tree);
    assert forall|i: int, j: int| 0 <= i < j < placements.len() implies (
    #[trigger] placements[i]).rect.disjoint((#[trigger] placements[j]).rect) by {
        assert(placements[i].rect == tree.footprints()[i].1);
        assert(placements[j].rect == tree.footprints()[j].1);
    }
    assert(placements.map_values(|p: Placement<T>| p.stamp()) =~= tree.footprints().map_values(
        |p: (Rc<T>, BoundingBox)| (*p.0, p.1.width as int, p.1.height as int),
    ));
    vstd::seq_lib::to_multiset_len(placements.map_values(|p: Placement<T>| p.stamp()));
    vstd::seq_lib::to_multiset_len(items.map_values(|item: PackingItem<T>| item.stamp(padding)));
    assert(placements.len() == items.len());
    assert forall|i: int| 0 <= i < all.len() implies (#[trigger] all[i]).wf() && all[i].within(
        tree.region(),
    ) by {
        assert(all[i] == tree.footprints()[i].1);
    }
    lemma_bounding_box_contains(all);
    lemma_bounding_box_is_tight(all, tree.region());
    assert(all[0] == tree.footprints()[0].1);
    assert(tree is Node);
    assert(all[0].x == 0 && all[0].y == 0);
    assert(all[0].within(bb));
    assert forall|i: int| 0 <= i < placements.len() implies (#[trigger] placements[i]).rect.within(
        bb,
    ) by {
        assert(placements[i].rect == all[i]);
    }
}

/// The tree that growing and retrying ends with is well formed over a valid
/// canvas at the origin and holds what the items want.
pub proof fn lemma_attempted<T>(items: Seq<PackingItem<T>>, padding: u32, width: u32, height: u32)
    requires
        valid_canvas(width, height),
    ensures
        attempted(items, padding, width, height) matches Ok(tree) ==> {
            &&& tree.wf()
            &&& tree.region().x == 0
            &&& tree.region().y == 0
            &&& valid_canvas(tree.region().width, tree.region().height)
            &&& held(tree) == wanted(items, padding)
        },
    decreases room(width, height),
{
    let start = blank::<T>(width, height);
    let (tree, placed) = filled(start, items, padding, 0);
    lemma_filled(start, items, padding, 0);
    if placed >= items.len() {
        let nothing = start.footprints().map_values(
            |p: (Rc<T>, BoundingBox)| (*p.0, p.1.width as int, p.1.height as int),
        );
        vstd::seq_lib::to_multiset_len(nothing);
        vstd::multiset::lemma_multiset_empty_len(nothing.to_multiset());
        assert(items.subrange(0, placed) =~= items);
        assert(Multiset::<(T, int, int)>::empty().add(wanted(items, padding)) =~= wanted(
            items,
            padding,
        ));
    } else {
        match grown(
            width,
            height,
            items[placed].footprint_width(padding) as u32,
            items[placed].footprint_height(padding) as u32,
        ) {
            None => {},
            Some((w, h)) => {
                lemma_attempted(items, padding, w, h);
            },
        }
    }
}

/// Whatever sheet a packing results in, no two of its placements overlap, all
/// lie inside its bounding box and inside the sheet that is one padding wider
/// and higher, every item has exactly one placement, of the size of its
/// footprint, and the bounding box is the union of the placements'
/// rectangles.
pub proof fn lemma_packed_in_order<T>(
    items: Seq<PackingItem<T>>,
    padding: u32,
    width: u32,
    height: u32,
)
    ensures
        packed_in_order(items, padding, width, height) matches Ok(sheet) ==> {
            &&& no_overlap(sheet.0)
            &&& contained(sheet.0, sheet.1, padding)
            &&& conserved(sheet.0, items, padding)
            &&& sheet.1 == bounding_box(rects(sheet.0))
            &&& sheet.0.len() == items.len()
        },
        items.len() == 0 ==> packed_in_order(items, padding, width, height) is Ok,
        packed_in_order(items, padding, width, height) matches Err(e) ==> match e {
            PackError::InvalidCanvas => items.len() > 0 && !valid_canvas(width, height),
            PackError::ItemTooLarge => items.len() > 0 && valid_canvas(width, height) && exists|
                i: int,
            |
                0 <= i < items.len() && (#[trigger] items[i]).too_large(padding),
            PackError::CanvasTooLarge => items.len() > 0 && valid_canvas(width, height) && (forall|
                i: int,
            |
                0 <= i < items.len() ==> !(#[trigger] items[i]).too_large(padding)) && attempted(
                items,
                padding,
                width,
                height,
            ) is Err,
            PackError::UnsupportedImage => false,
        },
{
    if items.len() == 0 {
        let none = Seq::<Placement<T>>::empty();
        lemma_wanted_nothing(items, padding);
        let stamps = none.map_values(|p: Placement<T>| p.stamp());
        vstd::seq_lib::to_multiset_len(stamps);
        vstd::multiset::lemma_multiset_empty_len(stamps.to_multiset());
        assert(rects(none) =~= Seq::empty());
    } else if valid_canvas(width, height) && !(exists|i: int|
        0 <= i < items.len() && (#[trigger] items[i]).too_large(padding)) {
        lemma_attempted(items, padding, width, height);
        lemma_attempted_fails_at_limit(items, padding, width, height);
        if let Ok(tree) = attempted(items, padding, width, height) {
            assert(!items[0].too_large(padding));
            lemma_sheet_of_tree(tree, items, padding);
        }
    }
}

/// Packs the items, in the order given, into the smallest canvas of the
/// growth sequence from the given canvas on that holds them all.
///
/// Each item takes its size plus the padding. Of no items the sheet is empty,
/// whatever the canvas. Otherwise a canvas with a side beyond
/// `MAX_CANVAS_SIDE`, or one of which `Tree2d::try_new` makes no tree, is
/// refused, then an item that no canvas can hold. The items are then inserted
/// into the fresh tree over the canvas; at the first that finds no room the
/// canvas grows for it and the packing starts over in a new tree.
pub fn pack_on_canvas<T: Copy>(
    items: &Vec<PackingItem<T>>,
    padding: u32,
    canvas_width: u32,
    canvas_height: u32,
) -> (result: Result<PackedSheet<T>, PackError>)
    ensures
        outcome(result) == packed_in_order(items@, padding, canvas_width, canvas_height),
        items.len() == 0 ==> result is Ok,
        result matches Err(PackError::InvalidCanvas) <==> items.len() > 0 && !valid_canvas(
            canvas_width,
            canvas_height,
        ),
        result matches Err(PackError::ItemTooLarge) <==> items.len() > 0 && valid_canvas(
            canvas_width,
            canvas_height,
        ) && exists|i: int| 0 <= i < items.len() && (#[trigger] items[i]).too_large(padding),
        result matches Err(PackError::CanvasTooLarge) <==> items.len() > 0 && valid_canvas(
            canvas_width,
            canvas_height,
        ) && (forall|i: int| 0 <= i < items.len() ==> !(#[trigger] items[i]).too_large(padding))
            && attempted(items@, padding, canvas_width, canvas_height) is Err,
        !(result matches Err(PackError::UnsupportedImage)),
        result matches Ok(sheet) ==> {
            &&& no_overlap(sheet.placements@)
            &&& contained(sheet.placements@, sheet.total_bounding_box, padding)
            &&& conserved(sheet.placements@, items@, padding)
            &&& sheet.total_bounding_box == bounding_box(rects(sheet.placements@))
            &&& sheet.placements.len() == items.len()
        },
{
    proof {
        lemma_packed_in_order(items@, padding, canvas_width, canvas_height);
    }
    if items.len() == 0 {
        return Ok(
            PackedSheet {
                placements: Vec::new(),
                total_bounding_box: BoundingBox { x: 0, y: 0, width: 0, height: 0 },
            },
        );
    }
    if canvas_width > MAX_CANVAS_SIDE || canvas_height > MAX_CANVAS_SIDE {
        return Err(PackError::InvalidCanvas);
    }
    let mut tree = match Tree2d::<T>::try_new(canvas_width, canvas_height) {
        Ok(tree) => tree,
        Err(e) => {
            return Err(e);
        },
    };
    let mut i: usize = 0;
    while i < items.len()
        invariant
            i <= items.len(),
            items.len() > 0,
            valid_canvas(canvas_width, canvas_height),
            forall|k: int| 0 <= k < i ==> !(#[trigger] items[k]).too_large(padding),
        decreases items.len() - i,
    {
        if items[i].width > MAX_CANVAS_SIDE || padding > MAX_CANVAS_SIDE - items[i].width
            || items[i].height > MAX_CANVAS_SIDE || padding > MAX_CANVAS_SIDE - items[i].height {
            assert(items[i as int].too_large(padding));
            return Err(PackError::ItemTooLarge);
        }
        i += 1;
    }
    let mut width = canvas_width;
    let mut height = canvas_height;
    loop
        invariant
            items.len() > 0,
            valid_canvas(width, height),
            valid_canvas(canvas_width, canvas_height),
            forall|k: int| 0 <= k < items.len() ==> !(#[trigger] items[k]).too_large(padding),
            attempted(items@, padding, width, height) == attempted(
                items@,
                padding,
                canvas_width,
                canvas_height,
            ),
            packed_in_order(items@, padding, canvas_width, canvas_height) matches Ok(sheet) ==> {
                &&& no_overlap(sheet.0)
                &&& contained(sheet.0, sheet.1, padding)
                &&& conserved(sheet.0, items@, padding)
                &&& sheet.1 == bounding_box(rects(sheet.0))
                &&& sheet.0.len() == items.len()
            },
            tree == blank::<T>(width, height),
        decreases room(width, height),
    {
        let placed = fill(&mut tree, items, padding);
        if placed == items.len() {
            return Ok(read_sheet(&tree));
        }
        let item = items[placed];
        match grow(width, height, item.width + padding, item.height + padding) {
            None => {
                return Err(PackError::CanvasTooLarge);
            },
            Some((w, h)) => {
                width = w;
                height = h;
            },
        }
        tree = match Tree2d::<T>::try_new(width, height) {
            Ok(tree) => tree,
            Err(e) => {
                return Err(e);
            },
        };
    }
}

/// Two sequences of the same items, however ordered, want the same.
pub proof fn lemma_wanted_of_same_items<T>(
    a: Seq<PackingItem<T>>,
    b: Seq<PackingItem<T>>,
    padding: u32,
)
    requires
        a.to_multiset() == b.to_multiset(),
    ensures
        wanted(a, padding) == wanted(b, padding),
    decreases a.len(),
{
    broadcast use vstd::seq_lib::group_to_multiset_ensures;

    let f = |item: PackingItem<T>| item.stamp(padding);
    assert(a.len() == b.len()) by {
        vstd::seq_lib::to_multiset_len(a);
        vstd::seq_lib::to_multiset_len(b);
    }
    if a.len() == 0 {
        assert(a.map_values(f) =~= b.map_values(f));
    } else {
        let x = a.last();
        assert(a.to_multiset().count(x) > 0) by {
            assert(a.contains(x));
        }
        assert(b.contains(x));
        let k = choose|k: int| 0 <= k < b.len() && b[k] == x;
        let a_rest = a.drop_last();
        let b_rest = b.remove(k);
        assert(a_rest =~= a.remove(a.len() - 1));
        lemma_wanted_of_same_items(a_rest, b_rest, padding);
        assert(a.map_values(f) =~= a_rest.map_values(f).push(f(x)));
        assert(b.map_values(f) =~= b_rest.map_values(f).insert(k, f(x)));
    }
}

/// Packs the items into one sheet.
///
/// The items are packed by descending area, items of equal area in the
/// order given. `estimate` is asked once, for the canvas to start from; it
/// gets the collection of the items and the padding. What then happens is
/// what `pack_on_canvas` does with the sorted items and that canvas.
pub fn pack<T: Copy, F: FnOnce(&ImageCollection<T>, u32) -> (u32, u32)>(
    items: Vec<PackingItem<T>>,
    padding: u32,
    estimate: F,
) -> (result: Result<PackedSheet<T>, PackError>)
    requires
        forall|c: ImageCollection<T>|
            c.describes(items@) ==> call_requires(estimate, (&c, padding)),
    ensures
        exists|c: ImageCollection<T>, canvas: (u32, u32)|
            {
                &&& c.describes(items@)
                &&& #[trigger] call_ensures(estimate, (&c, padding), canvas)
                &&& outcome(result) == packed_in_order(
                    sorted_by_area(items@),
                    padding,
                    canvas.0,
                    canvas.1,
                )
            },
        items.len() == 0 ==> result is Ok,
        !(result matches Err(PackError::UnsupportedImage)),
        result matches Ok(sheet) ==> {
            &&& no_overlap(sheet.placements@)
            &&& contained(sheet.placements@, sheet.total_bounding_box, padding)
            &&& conserved(sheet.placements@, items@, padding)
            &&& sheet.total_bounding_box == bounding_box(rects(sheet.placements@))
            &&& sheet.placements.len() == items.len()
        },
{
    let ghost given = items@;
    let collection = ImageCollection::new(items);
    let canvas = estimate(&collection, padding);
    proof {
        lemma_sorted_by_area(given);
        lemma_wanted_of_same_items(sorted_by_area(given), given, padding);
    }
    pack_on_canvas(&collection.named_images, padding, canvas.0, canvas.1)
}

/// Packs the items from the canvas that `ImageCollection::canvas_estimate`
/// gives. That canvas is always valid, so the packing fails only for an item
/// that is too large or for items that no canvas holds.
pub fn pack_from_estimate<T: Copy>(items: Vec<PackingItem<T>>, padding: u32) -> (result: Result<
    PackedSheet<T>,
    PackError,
>)
    ensures
        outcome(result) == packed_in_order(
            sorted_by_area(items@),
            padding,
            estimated_side(widest(items@), padding),
            estimated_side(tallest(items@), padding),
        ),
        items.len() == 0 ==> result is Ok,
        !(result matches Err(PackError::InvalidCanvas)),
        !(result matches Err(PackError::UnsupportedImage)),
        result matches Ok(sheet) ==> {
            &&& no_overlap(sheet.placements@)
            &&& contained(sheet.placements@, sheet.total_bounding_box, padding)
            &&& conserved(sheet.placements@, items@, padding)
            &&& sheet.total_bounding_box == bounding_box(rects(sheet.placements@))
            &&& sheet.placements.len() == items.len()
        },
{
    let estimate = |collection: &ImageCollection<T>, padding: u32| -> (canvas: (u32, u32))
        ensures
            canvas == (
                estimated_side(collection.max_width, padding),
                estimated_side(collection.max_height, padding),
            ),
        { collection.canvas_estimate(padding) };
    proof {
        lemma_attempted_fails_at_limit(
            sorted_by_area(items@),
            padding,
            estimated_side(widest(items@), padding),
            estimated_side(tallest(items@), padding),
        );
    }
    pack(items, padding, estimate)
}

/// Packs the images as the configuration asks, with its padding, and draws
/// the sheet: what `pack_images` does.
pub fn run(config: &Config, images: &Vec<DynamicImage>) -> (result: Result<Atlas, PackError>)
    ensures
        packs(result, images@, config.padding as u32),
        images.len() == 0 ==> result is Ok,
        !(result matches Err(PackError::InvalidCanvas)),
{
    pack_images(config.padding, images)
}

/// Two packings of the same items, in the same order, with the same padding
/// and from the same canvas, end alike: with the same placements in the same
/// order and the same bounding box, or with the same error.
pub proof fn lemma_pack_on_canvas_twice<T: Copy>(
    items: &Vec<PackingItem<T>>,
    padding: u32,
    canvas_width: u32,
    canvas_height: u32,
    first: Result<PackedSheet<T>, PackError>,
    second: Result<PackedSheet<T>, PackError>,
)
    requires
        call_ensures(pack_on_canvas::<T>, (items, padding, canvas_width, canvas_height), first),
        call_ensures(pack_on_canvas::<T>, (items, padding, canvas_width, canvas_height), second),
    ensures
        outcome(first) == outcome(second),
{
}

/// Two packings of the same items with the same padding end alike, where
/// the estimate is one that gives one canvas for one set of items.
pub proof fn lemma_pack_twice<
    T: Copy,
    F: FnOnce(&ImageCollection<T>, u32) -> (u32, u32),
>(
    items: Vec<PackingItem<T>>,
    again: Vec<PackingItem<T>>,
    padding: u32,
    estimate: F,
    first: Result<PackedSheet<T>, PackError>,
    second: Result<PackedSheet<T>, PackError>,
)
    requires
        items@ == again@,
        forall|c: ImageCollection<T>, d: ImageCollection<T>, canvas: (u32, u32), other: (u32, u32)|
            c.describes(items@) && d.describes(items@) && #[trigger] call_ensures(
                estimate,
                (&c, padding),
                canvas,
            ) && #[trigger] call_ensures(estimate, (&d, padding), other) ==> canvas == other,
        call_ensures(pack::<T, F>, (items, padding, estimate), first),
        call_ensures(pack::<T, F>, (again, padding, estimate), second),
    ensures
        outcome(first) == outcome(second),
{
}

/// Two packings from the estimated canvas of the same items with the same
/// padding end alike.
pub proof fn lemma_pack_from_estimate_twice<T: Copy>(
    items: Vec<PackingItem<T>>,
    again: Vec<PackingItem<T>>,
    padding: u32,
    first: Result<PackedSheet<T>, PackError>,
    second: Result<PackedSheet<T>, PackError>,
)
    requires
        items@ == again@,
        call_ensures(pack_from_estimate::<T>, (items, padding), first),
        call_ensures(pack_from_estimate::<T>, (again, padding), second),
    ensures
        outcome(first) == outcome(second),
{
}

} // verus!
