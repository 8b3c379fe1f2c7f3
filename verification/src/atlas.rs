//! Drawing a packed sheet: every image is copied to its place on one
//! transparent canvas.

use crate::collection::{estimated_side, tallest, widest};
use crate::packer::{
    conserved, lemma_packed_in_order, pack_from_estimate, packed_in_order, PackError, PackingItem,
};
use crate::sheet::{bounding_box, contained, no_overlap, rects, PackedSheet, Placement};
use crate::sorting::sorted_by_area;
use crate::tree2d::BoundingBox;
use image::{DynamicImage, GenericImageView, RgbaImage};
use vstd::prelude::*;

verus! {

/// `image::DynamicImage`: an image in any of the pixel formats that the
/// `image` crate decodes. Nothing of its inside is visible here; what the
/// contracts say of an image they say through `image_size` and
/// `image_pixels`.
#[verifier::external_type_specification]
#[verifier::external_body]
pub struct ExDynamicImage(DynamicImage);

/// A canvas to draw on: an `image::RgbaImage`, eight bits for each of the
/// four channels of a pixel. Nothing of its inside is visible here; what the
/// contracts say of a canvas they say through `canvas_size` and
/// `canvas_pixels`.
#[verifier::external_body]
pub struct Canvas {
    image: RgbaImage,
}

/// The width and the height of an image, as `GenericImageView::dimensions`
/// gives them.
pub uninterp spec fn image_size(image: DynamicImage) -> (u32, u32);

/// The pixels of an image, by their x and y coordinates, as
/// `GenericImageView::get_pixel` gives them. Only the coordinates inside the
/// image are spoken of.
pub uninterp spec fn image_pixels(image: DynamicImage) -> Map<(int, int), (u8, u8, u8, u8)>;

/// Whether the image holds integer pixels: it is one of the eight variants
/// of `DynamicImage` with 8 or 16 bits a channel, and not one of the two
/// with 32-bit floats.
pub uninterp spec fn image_is_integer(image: DynamicImage) -> bool;

/// The width and the height of a canvas.
pub uninterp spec fn canvas_size(canvas: Canvas) -> (u32, u32);

/// The pixels of a canvas, by their x and y coordinates. Only the
/// coordinates inside the canvas are spoken of.
pub uninterp spec fn canvas_pixels(canvas: Canvas) -> Map<(int, int), (u8, u8, u8, u8)>;

/// `GenericImageView::dimensions` of a `DynamicImage`: the width and the
/// height of the image.
#[verifier::external_body]
fn dimensions(image: &DynamicImage) -> (size: (u32, u32))
    ensures
        size == image_size(*image),
{
    image.dimensions()
}

/// Tells the variants of `DynamicImage` apart: whether the image is one of
/// those with integer pixels.
#[verifier::external_body]
fn holds_integers(image: &DynamicImage) -> (yes: bool)
    ensures
        yes == image_is_integer(*image),
{
    match image {
        DynamicImage::ImageLuma8(_) => true,
        DynamicImage::ImageLumaA8(_) => true,
        DynamicImage::ImageRgb8(_) => true,
        DynamicImage::ImageRgba8(_) => true,
        DynamicImage::ImageLuma16(_) => true,
        DynamicImage::ImageLumaA16(_) => true,
        DynamicImage::ImageRgb16(_) => true,
        DynamicImage::ImageRgba16(_) => true,
        _ => false,
    }
}

/// Whether a canvas of the given size can be made: the bytes of one row,
/// four for each pixel, can be counted in a `usize`, and those of all the
/// rows are no more than a vector holds.
pub open spec fn holdable(width: int, height: int) -> bool {
    4 * width <= usize::MAX && 4 * width * height <= isize::MAX
}

/// `RgbaImage::new`: a canvas of the given size on which every pixel is
/// transparent black. The call multiplies four by the width and then by the
/// height and panics where a product overflows or is more than a vector can
/// hold, so such sizes are left out.
#[verifier::external_body]
fn new_canvas(width: u32, height: u32) -> (canvas: Canvas)
    requires
        holdable(width as int, height as int),
    ensures
        canvas_size(canvas) == (width, height),
        forall|x: int, y: int|
            0 <= x < width && 0 <= y < height ==> #[trigger] canvas_pixels(canvas)[(x, y)] == (
                0u8,
                0u8,
                0u8,
                0u8,
            ),
{
    Canvas { image: RgbaImage::new(width, height) }
}

/// `image::imageops::replace`: copies the image onto the canvas, with its
/// top-left corner at `(x, y)`. The canvas keeps its size. A pixel of the
/// canvas that the image covers takes the image's pixel; every other pixel
/// stays as it was. What of the image reaches beyond the canvas is cut off.
///
/// The call turns each pixel of the image into four 8-bit channels. For a
/// float channel that is not a number that conversion panics, so images with
/// float pixels are left out.
#[verifier::external_body]
fn replace(canvas: &mut Canvas, image: &DynamicImage, x: u32, y: u32)
    requires
        image_is_integer(*image),
    ensures
        canvas_size(*final(canvas)) == canvas_size(*old(canvas)),
        forall|i: int, j: int|
            0 <= i < canvas_size(*old(canvas)).0 && 0 <= j < canvas_size(*old(canvas)).1
                ==> #[trigger] canvas_pixels(*final(canvas))[(i, j)] == if x <= i < x
                + image_size(*image).0 && y <= j < y + image_size(*image).1 {
                image_pixels(*image)[(i - x, j - y)]
            } else {
                canvas_pixels(*old(canvas))[(i, j)]
            },
{
    image::imageops::replace(&mut canvas.image, image, i64::from(x), i64::from(y))
}

/// `DynamicImage::ImageRgba8`: the canvas as an image, with the same size and
/// the same pixels.
#[verifier::external_body]
fn into_image(canvas: Canvas) -> (image: DynamicImage)
    ensures
        image_size(image) == canvas_size(canvas),
        forall|x: int, y: int|
            0 <= x < canvas_size(canvas).0 && 0 <= y < canvas_size(canvas).1
                ==> #[trigger] image_pixels(image)[(x, y)] == canvas_pixels(canvas)[(x, y)],
{
    DynamicImage::ImageRgba8(canvas.image)
}

/// A packed sheet and its picture.
pub struct Atlas {
    /// The images, each drawn at its place on a transparent ground.
    pub image: DynamicImage,
    /// Where each image is. The payload of a placement is the index of its
    /// image.
    pub sheet: PackedSheet<usize>,
}

/// The items that stand for the images: each of the size of its image, with
/// the image's index for a handle.
pub open spec fn items_of(images: Seq<DynamicImage>) -> Seq<PackingItem<usize>> {
    Seq::new(
        images.len(),
        |i: int|
            PackingItem {
                width: image_size(images[i]).0,
                height: image_size(images[i]).1,
                payload: i as usize,
            },
    )
}

/// Whether the pixel `(i, j)` of the sheet shows the image that was placed
/// at `rect`: the image lies one padding in from the left and the top of its
/// rectangle and reaches to the rectangle's right and lower edge.
pub open spec fn shows(rect: BoundingBox, padding: u32, i: int, j: int) -> bool {
    rect.x + padding <= i < rect.x + rect.width && rect.y + padding <= j < rect.y + rect.height
}

/// Whether the placement is one of an image of `images`: its payload is an
/// index into them, and its rectangle is that image's size plus the padding.
pub open spec fn placed_image(
    placement: Placement<usize>,
    images: Seq<DynamicImage>,
    padding: u32,
) -> bool {
    &&& placement.payload < images.len()
    &&& placement.rect.width == image_size(images[placement.payload as int]).0 + padding
    &&& placement.rect.height == image_size(images[placement.payload as int]).1 + padding
}

/// Whether `pixels` are those of the sheet drawn, on a picture of the given
/// width and height: every image shows at its place, pixel for pixel, and
/// every other pixel of the picture is transparent black.
pub open spec fn drawn(
    pixels: Map<(int, int), (u8, u8, u8, u8)>,
    images: Seq<DynamicImage>,
    placements: Seq<Placement<usize>>,
    padding: u32,
    width: int,
    height: int,
) -> bool {
    &&& forall|k: int, i: int, j: int|
        0 <= k < placements.len() && #[trigger] shows(placements[k].rect, padding, i, j)
            ==> pixels[(i, j)] == image_pixels(images[placements[k].payload as int])[(
            i - placements[k].rect.x - padding,
            j - placements[k].rect.y - padding,
        )]
    &&& forall|i: int, j: int|
        0 <= i < width && 0 <= j < height && (forall|k: int|
            0 <= k < placements.len() ==> !#[trigger] shows(placements[k].rect, padding, i, j))
            ==> #[trigger] pixels[(i, j)] == (0u8, 0u8, 0u8, 0u8)
}

/// Where every item has its placement, every placement is one of an image.
pub proof fn lemma_placements_are_of_images(
    images: Seq<DynamicImage>,
    placements: Seq<Placement<usize>>,
    padding: u32,
)
    requires
        images.len() <= usize::MAX,
        conserved(placements, items_of(images), padding),
    ensures
        forall|k: int|
            0 <= k < placements.len() ==> placed_image(#[trigger] placements[k], images, padding),
{
    broadcast use vstd::seq_lib::group_to_multiset_ensures;

    let items = items_of(images);
    let found = placements.map_values(|p: Placement<usize>| p.stamp());
    let asked = items.map_values(|item: PackingItem<usize>| item.stamp(padding));
    assert forall|k: int| 0 <= k < placements.len() implies placed_image(
        #[trigger] placements[k],
        images,
        padding,
    ) by {
        let stamp = placements[k].stamp();
        assert(found[k] == stamp);
        assert(found.contains(stamp));
        assert(found.to_multiset().count(stamp) > 0);
        assert(asked.to_multiset().count(stamp) > 0);
        assert(asked.contains(stamp));
        let i = choose|i: int| 0 <= i < asked.len() && asked[i] == stamp;
        assert(asked[i] == items[i].stamp(padding));
    }
}

/// The items that stand for the images.
pub fn measure(images: &Vec<DynamicImage>) -> (items: Vec<PackingItem<usize>>)
    ensures
        items@ == items_of(images@),
{
    let mut items: Vec<PackingItem<usize>> = Vec::new();
    let mut i: usize = 0;
    while i < images.len()
        invariant
            i <= images.len(),
            items@ == items_of(images@).take(i as int),
        decreases images.len() - i,
    {
        let (width, height) = dimensions(&images[i]);
        items.push(PackingItem { width, height, payload: i });
        assert(items@ =~= items_of(images@).take(i + 1));
        i += 1;
    }
    assert(items_of(images@).take(i as int) =~= items_of(images@));
    items
}

/// Draws the sheet: a transparent canvas one padding wider and higher than
/// the bounding box, with every image copied to its place, one padding in
/// from the corner of its rectangle.
pub fn draw(images: &Vec<DynamicImage>, sheet: &PackedSheet<usize>, padding: u32) -> (picture:
    DynamicImage)
    requires
        no_overlap(sheet.placements@),
        contained(sheet.placements@, sheet.total_bounding_box, padding),
        forall|k: int|
            0 <= k < sheet.placements.len() ==> placed_image(
                #[trigger] sheet.placements[k],
                images@,
                padding,
            ),
        holdable(
            sheet.total_bounding_box.width + padding,
            sheet.total_bounding_box.height + padding,
        ),
        forall|i: int| 0 <= i < images.len() ==> image_is_integer(#[trigger] images[i]),
    ensures
        image_size(picture) == (
            (sheet.total_bounding_box.width + padding) as u32,
            (sheet.total_bounding_box.height + padding) as u32,
        ),
        drawn(
            image_pixels(picture),
            images@,
            sheet.placements@,
            padding,
            sheet.total_bounding_box.width + padding,
            sheet.total_bounding_box.height + padding,
        ),
{
    let bb = sheet.total_bounding_box;
    let width = bb.width + padding;
    let height = bb.height + padding;
    let mut canvas = new_canvas(width, height);
    let mut k: usize = 0;
    while k < sheet.placements.len()
        invariant
            k <= sheet.placements.len(),
            bb == sheet.total_bounding_box,
            width == bb.width + padding,
            height == bb.height + padding,
            canvas_size(canvas) == (width, height),
            no_overlap(sheet.placements@),
            contained(sheet.placements@, bb, padding),
            forall|m: int|
                0 <= m < sheet.placements.len() ==> placed_image(
                    #[trigger] sheet.placements[m],
                    images@,
                    padding,
                ),
            forall|i: int| 0 <= i < images.len() ==> image_is_integer(#[trigger] images[i]),
            drawn(
                canvas_pixels(canvas),
                images@,
                sheet.placements@.take(k as int),
                padding,
                width as int,
                height as int,
            ),
        decreases sheet.placements.len() - k,
    {
        let placement = sheet.placements[k];
        let ghost before = canvas;
        let ghost done = sheet.placements@.take(k as int);
        let ghost next = sheet.placements@.take(k + 1);
        proof {
            assert(placement.rect.within(bb));
            assert(placed_image(sheet.placements[k as int], images@, padding));
        }
        replace(
            &mut canvas,
            &images[placement.payload],
            placement.rect.x + padding,
            placement.rect.y + padding,
        );
        proof {
            assert forall|m: int, i: int, j: int|
                0 <= m < next.len() && #[trigger] shows(
                    next[m].rect,
                    padding,
                    i,
                    j,
                ) implies canvas_pixels(canvas)[(i, j)] == image_pixels(
                images@[next[m].payload as int],
            )[(i - next[m].rect.x - padding, j - next[m].rect.y - padding)] by {
                assert(next[m] == sheet.placements[m]);
                assert(sheet.placements[m].rect.within(bb));
                if m < k {
                    assert(done[m] == sheet.placements[m]);
                    assert(sheet.placements[m].rect.disjoint(sheet.placements[k as int].rect));
                    assert(shows(done[m].rect, padding, i, j));
                }
            }
            assert forall|i: int, j: int|
                0 <= i < width && 0 <= j < height && (forall|m: int|
                    0 <= m < next.len() ==> !#[trigger] shows(
                        next[m].rect,
                        padding,
                        i,
                        j,
                    )) implies #[trigger] canvas_pixels(canvas)[(i, j)] == (0u8, 0u8, 0u8, 0u8) by {
                assert(next[k as int] == sheet.placements[k as int]);
                assert(!shows(next[k as int].rect, padding, i, j));
                assert forall|m: int| 0 <= m < done.len() implies !#[trigger] shows(
                    done[m].rect,
                    padding,
                    i,
                    j,
                ) by {
                    assert(done[m] == next[m]);
                }
                assert(canvas_pixels(before)[(i, j)] == (0u8, 0u8, 0u8, 0u8));
            }
        }
        k += 1;
    }
    proof {
        assert(sheet.placements@.take(k as int) =~= sheet.placements@);
        assert forall|m: int, i: int, j: int|
            0 <= m < sheet.placements.len() && #[trigger] shows(
                sheet.placements[m].rect,
                padding,
                i,
                j,
            ) implies 0 <= i < width && 0 <= j < height by {
            assert(sheet.placements[m].rect.within(bb));
        }
    }
    into_image(canvas)
}

/// The sheet that packing the images results in: they are packed by
/// descending area, each with the padding, from the estimated canvas.
pub open spec fn laid_out(images: Seq<DynamicImage>, padding: u32) -> Result<
    (Seq<Placement<usize>>, BoundingBox),
    PackError,
> {
    packed_in_order(
        sorted_by_area(items_of(images)),
        padding,
        estimated_side(widest(items_of(images)), padding),
        estimated_side(tallest(items_of(images)), padding),
    )
}

/// Whether a canvas of the given size can be made.
pub fn can_hold(width: u32, height: u32) -> (yes: bool)
    ensures
        yes == holdable(width as int, height as int),
{
    assert(width * height <= u32::MAX * u32::MAX) by (nonlinear_arith)
        requires
            width <= u32::MAX,
            height <= u32::MAX,
    ;
    assert(4 * width * height == 4 * (width * height)) by (nonlinear_arith);
    (width as u64) * 4 <= usize::MAX as u64 && (width as u64) * (height as u64) <= (isize::MAX
        as u64) / 4
}

/// Whether all the images hold integer pixels.
pub open spec fn drawable(images: Seq<DynamicImage>) -> bool {
    forall|i: int| 0 <= i < images.len() ==> image_is_integer(#[trigger] images[i])
}

/// Whether `result` is what packing the images with the padding comes to.
///
/// Where an image holds float pixels it is `UnsupportedImage`. Otherwise it
/// is an atlas exactly where the images can be laid out and a canvas of the
/// sheet's size can be made. The atlas then has that sheet, and so a sheet
/// without overlap, inside its bounds and with every image once; its picture
/// is the sheet drawn. Otherwise it is the error of the layout, or
/// `CanvasTooLarge` for a sheet of which no canvas can be made.
pub open spec fn packs(
    result: Result<Atlas, PackError>,
    images: Seq<DynamicImage>,
    padding: u32,
) -> bool {
    if !drawable(images) {
        result matches Err(PackError::UnsupportedImage)
    } else {
        match (result, laid_out(images, padding)) {
            (Ok(atlas), expected) => {
                &&& expected == Ok::<(Seq<Placement<usize>>, BoundingBox), PackError>(
                    atlas.sheet@,
                )
                &&& holdable(
                    atlas.sheet.total_bounding_box.width + padding,
                    atlas.sheet.total_bounding_box.height + padding,
                )
                &&& image_size(atlas.image) == (
                    (atlas.sheet.total_bounding_box.width + padding) as u32,
                    (atlas.sheet.total_bounding_box.height + padding) as u32,
                )
                &&& drawn(
                    image_pixels(atlas.image),
                    images,
                    atlas.sheet.placements@,
                    padding,
                    atlas.sheet.total_bounding_box.width + padding,
                    atlas.sheet.total_bounding_box.height + padding,
                )
                &&& no_overlap(atlas.sheet.placements@)
                &&& contained(atlas.sheet.placements@, atlas.sheet.total_bounding_box, padding)
                &&& conserved(atlas.sheet.placements@, items_of(images), padding)
                &&& atlas.sheet.total_bounding_box == bounding_box(
                    rects(atlas.sheet.placements@),
                )
                &&& forall|k: int|
                    0 <= k < atlas.sheet.placements.len() ==> placed_image(
                        #[trigger] atlas.sheet.placements[k],
                        images,
                        padding,
                    )
            },
            (Err(e), Ok(sheet)) => e == PackError::CanvasTooLarge && !holdable(
                sheet.1.width + padding,
                sheet.1.height + padding,
            ),
            (Err(e), Err(expected)) => e == expected,
        }
    }
}

/// Whether all the images hold integer pixels.
pub fn all_drawable(images: &Vec<DynamicImage>) -> (yes: bool)
    ensures
        yes == drawable(images@),
{
    let mut i: usize = 0;
    while i < images.len()
        invariant
            i <= images.len(),
            forall|k: int| 0 <= k < i ==> image_is_integer(#[trigger] images[k]),
        decreases images.len() - i,
    {
        if !holds_integers(&images[i]) {
            return false;
        }
        i += 1;
    }
    true
}

/// Packs the images into one sheet and draws it.
///
/// Images with float pixels are refused before anything else. Each image is
/// then an item of its own size, known by its index. The items are packed as
/// `pack_from_estimate` packs them, and the sheet is drawn as `draw` draws
/// it. The packing fails as the sheet's packing fails; a sheet of which no
/// canvas can be made is `CanvasTooLarge` as well.
pub fn pack_images(padding: u8, images: &Vec<DynamicImage>) -> (result: Result<Atlas, PackError>)
    ensures
        packs(result, images@, padding as u32),
        images.len() == 0 ==> result is Ok,
        !(result matches Err(PackError::InvalidCanvas)),
{
    if !all_drawable(images) {
        return Err(PackError::UnsupportedImage);
    }
    proof {
        lemma_packed_in_order(
            sorted_by_area(items_of(images@)),
            padding as u32,
            estimated_side(widest(items_of(images@)), padding as u32),
            estimated_side(tallest(items_of(images@)), padding as u32),
        );
    }
    let items = measure(images);
    let sheet = match pack_from_estimate(items, padding as u32) {
        Ok(sheet) => sheet,
        Err(e) => {
            return Err(e);
        },
    };
    let bb = sheet.total_bounding_box;
    proof {
        lemma_placements_are_of_images(images@, sheet.placements@, padding as u32);
        if images.len() == 0 {
            assert(rects(sheet.placements@).len() == 0);
            assert(bb.width == 0 && bb.height == 0);
            assert(4 * padding * padding <= 4 * 255 * 255) by (nonlinear_arith)
                requires
                    padding <= 255,
            ;
            assert(4 * padding * padding == 4 * (padding as int) * (padding as int));
        }
    }
    if !can_hold(bb.width + padding as u32, bb.height + padding as u32) {
        return Err(PackError::CanvasTooLarge);
    }
    let image = draw(images, &sheet, padding as u32);
    Ok(Atlas { image, sheet })
}

/// Two packings of the same images with the same padding end alike: with
/// the same placements and pictures of the same size and with the same
/// pixels, or with the same error.
pub proof fn lemma_pack_images_twice(
    padding: u8,
    images: &Vec<DynamicImage>,
    first: Result<Atlas, PackError>,
    second: Result<Atlas, PackError>,
)
    requires
        call_ensures(pack_images, (padding, images), first),
        call_ensures(pack_images, (padding, images), second),
    ensures
        first is Ok <==> second is Ok,
        first matches Err(e) ==> second == Err::<Atlas, PackError>(e),
        first matches Ok(a) ==> second matches Ok(b) && {
            &&& a.sheet@ == b.sheet@
            &&& image_size(a.image) == image_size(b.image)
            &&& forall|i: int, j: int|
                0 <= i < image_size(a.image).0 && 0 <= j < image_size(a.image).1
                    ==> #[trigger] image_pixels(a.image)[(i, j)] == image_pixels(b.image)[(i, j)]
        },
{
    if let (Ok(a), Ok(b)) = (first, second) {
        let placements = a.sheet.placements@;
        let pad = padding as u32;
        let (width, height) = image_size(a.image);
        assert forall|i: int, j: int|
            0 <= i < width && 0 <= j < height implies #[trigger] image_pixels(a.image)[(i, j)]
            == image_pixels(b.image)[(i, j)] by {
            if exists|k: int| 0 <= k < placements.len() && shows(placements[k].rect, pad, i, j) {
                let k = choose|k: int|
                    0 <= k < placements.len() && shows(placements[k].rect, pad, i, j);
                assert(shows(placements[k].rect, pad, i, j));
            }
        }
    }
}

} // verus!
