use corral::atlas::{all_drawable, can_hold, draw, measure, pack_images, Atlas};
use corral::canvas::MAX_CANVAS_SIDE;
use corral::packer::{pack_on_canvas, run, Config, PackError, PackingItem};
use corral::tree2d::BoundingBox;
use image::{DynamicImage, GenericImageView, Rgba, RgbaImage};

const CLEAR: Rgba<u8> = Rgba([0, 0, 0, 0]);
const RED: Rgba<u8> = Rgba([255, 0, 0, 255]);
const BLUE: Rgba<u8> = Rgba([0, 0, 255, 255]);

fn make_rect(w: u32, h: u32) -> DynamicImage {
    let mut img = RgbaImage::new(w, h);
    for i in 0..w {
        for j in 0..h {
            img.put_pixel(i, j, Rgba([255, 0, 0, 255]));
        }
    }
    DynamicImage::ImageRgba8(img)
}

fn filled(w: u32, h: u32, color: Rgba<u8>) -> DynamicImage {
    DynamicImage::ImageRgba8(RgbaImage::from_pixel(w, h, color))
}

/// An image whose every pixel tells its own coordinates and the image's
/// number.
fn numbered(number: u8, w: u32, h: u32) -> DynamicImage {
    let mut img = RgbaImage::new(w, h);
    for x in 0..w {
        for y in 0..h {
            img.put_pixel(x, y, Rgba([number, x as u8, y as u8, 255]));
        }
    }
    DynamicImage::ImageRgba8(img)
}

fn rect(x: u32, y: u32, width: u32, height: u32) -> BoundingBox {
    BoundingBox {
        x,
        y,
        width,
        height,
    }
}

fn many_dims() -> Vec<(u32, u32)> {
    let mut dims = vec![];
    for _ in 0..3 {
        dims.extend_from_slice(&[
            (128, 96),
            (96, 128),
            (64, 96),
            (96, 64),
            (64, 64),
            (96, 96),
            (256, 64),
        ]);
        dims.extend_from_slice(&[(32, 32); 4]);
        dims.extend_from_slice(&[(42, 42); 6]);
    }
    dims.extend_from_slice(&[(16, 16); 26]);
    dims.extend_from_slice(&[(8, 8); 21]);
    dims
}

/// Checks every pixel of the picture against the placements.
fn check_picture(atlas: &Atlas, images: &[DynamicImage], padding: u32) {
    let bb = atlas.sheet.total_bounding_box;
    assert_eq!(
        atlas.image.dimensions(),
        (bb.width + padding, bb.height + padding)
    );
    let picture = atlas.image.as_rgba8().expect("the picture is RGBA, 8 bits");
    let mut expected = RgbaImage::new(bb.width + padding, bb.height + padding);
    for p in atlas.sheet.placements.iter() {
        let image = &images[p.payload];
        assert_eq!(p.rect.width, image.width() + padding);
        assert_eq!(p.rect.height, image.height() + padding);
        for x in 0..image.width() {
            for y in 0..image.height() {
                let at = (p.rect.x + padding + x, p.rect.y + padding + y);
                assert_eq!(*expected.get_pixel(at.0, at.1), CLEAR, "two images at {:?}", at);
                expected.put_pixel(at.0, at.1, image.get_pixel(x, y));
            }
        }
    }
    assert_eq!(picture.as_raw(), expected.as_raw());
}

#[test]
fn pack_one() {
    let (w, h) = (1, 1);
    let padding = 1;
    let mut expected_output_img = image::RgbaImage::new(w + padding * 2, h + padding * 2);
    for i in 0..w + padding * 2 {
        for j in 0..h + padding * 2 {
            let color = if i < padding || j < padding {
                image::Rgba([0, 0, 0, 0])
            } else if i >= padding + w || j >= padding + h {
                image::Rgba([0, 0, 0, 0])
            } else {
                image::Rgba([255, 0, 0, 255])
            };
            expected_output_img.put_pixel(i, j, color);
        }
    }

    let images = vec![make_rect(w, h)];

    let packed = pack_images(padding as u8, &images).unwrap().image;
    let img = packed.as_rgba8().expect("the picture is RGBA, 8 bits");
    let p: Vec<&image::Rgba<u8>> = img.pixels().collect();
    let q: Vec<&image::Rgba<u8>> = expected_output_img.pixels().collect();
    assert_eq!(q, p);
}

#[test]
fn pack_many() {
    let dims = many_dims();
    let mut imgs = vec![];
    for (w, h) in (dims).iter() {
        imgs.push(make_rect(*w, *h))
    }
    let atlas = pack_images(2, &imgs).unwrap();
    assert_eq!(atlas.sheet.placements.len(), 98);
    check_picture(&atlas, &imgs, 2);
}

#[test]
fn single_item_sheet_is_three_by_three() {
    let atlas = pack_images(1, &vec![filled(1, 1, RED)]).unwrap();
    assert_eq!(atlas.image.dimensions(), (3, 3));
    assert_eq!(atlas.sheet.total_bounding_box, rect(0, 0, 2, 2));
    assert_eq!(atlas.sheet.placements.len(), 1);
    assert_eq!(atlas.sheet.placements[0].payload, 0);
    assert_eq!(atlas.sheet.placements[0].rect, rect(0, 0, 2, 2));
    for x in 0..3 {
        for y in 0..3 {
            let expected = if (x, y) == (1, 1) { RED } else { CLEAR };
            assert_eq!(atlas.image.get_pixel(x, y), expected, "at ({}, {})", x, y);
        }
    }
}

#[test]
fn every_image_shows_at_its_place() {
    // sorted: the blue 3x3, then the red 1x1; with padding 2 the blue one
    // takes (0,0,5,5) and the red one (5,0,3,3); the sheet is 10 by 7
    let images = vec![filled(1, 1, RED), filled(3, 3, BLUE)];
    let atlas = pack_images(2, &images).unwrap();
    let shown: Vec<(usize, BoundingBox)> = atlas
        .sheet
        .placements
        .iter()
        .map(|p| (p.payload, p.rect))
        .collect();
    assert_eq!(shown, vec![(1, rect(0, 0, 5, 5)), (0, rect(5, 0, 3, 3))]);
    assert_eq!(atlas.sheet.total_bounding_box, rect(0, 0, 8, 5));
    assert_eq!(atlas.image.dimensions(), (10, 7));
    for x in 0..10 {
        for y in 0..7 {
            let expected = if (2..5).contains(&x) && (2..5).contains(&y) {
                BLUE
            } else if (x, y) == (7, 2) {
                RED
            } else {
                CLEAR
            };
            assert_eq!(atlas.image.get_pixel(x, y), expected, "at ({}, {})", x, y);
        }
    }
}

#[test]
fn pixels_keep_their_place_within_the_image() {
    let images = vec![
        numbered(1, 4, 2),
        numbered(2, 3, 3),
        numbered(3, 1, 5),
        numbered(4, 2, 2),
    ];
    for padding in [0u8, 1, 3] {
        let atlas = pack_images(padding, &images).unwrap();
        check_picture(&atlas, &images, padding as u32);
    }
}

#[test]
fn images_of_other_formats_are_drawn_as_rgba() {
    let gray = DynamicImage::ImageLuma8(image::GrayImage::from_pixel(2, 2, image::Luma([128])));
    let rgb = DynamicImage::ImageRgb8(image::RgbImage::from_pixel(1, 1, image::Rgb([1, 2, 3])));
    let images = vec![gray, rgb];
    let atlas = pack_images(0, &images).unwrap();
    check_picture(&atlas, &images, 0);
    let gray_at = atlas.sheet.placements.iter().find(|p| p.payload == 0).unwrap();
    let rgb_at = atlas.sheet.placements.iter().find(|p| p.payload == 1).unwrap();
    assert_eq!(
        atlas.image.get_pixel(gray_at.rect.x, gray_at.rect.y),
        Rgba([128, 128, 128, 255])
    );
    assert_eq!(
        atlas.image.get_pixel(rgb_at.rect.x, rgb_at.rect.y),
        Rgba([1, 2, 3, 255])
    );
}

#[test]
fn no_images_give_a_sheet_of_padding_only() {
    let atlas = pack_images(2, &Vec::new()).unwrap();
    assert!(atlas.sheet.placements.is_empty());
    assert_eq!(atlas.sheet.total_bounding_box, rect(0, 0, 0, 0));
    assert_eq!(atlas.image.dimensions(), (2, 2));
    assert!(atlas.image.as_rgba8().unwrap().pixels().all(|p| *p == CLEAR));
    let atlas = pack_images(0, &Vec::new()).unwrap();
    assert_eq!(atlas.image.dimensions(), (0, 0));
}

#[test]
fn images_without_pixels_are_placed() {
    let images = vec![filled(0, 0, RED), filled(2, 2, BLUE), filled(0, 3, RED)];
    let atlas = pack_images(1, &images).unwrap();
    assert_eq!(atlas.sheet.placements.len(), 3);
    check_picture(&atlas, &images, 1);
}

#[test]
fn measure_takes_the_size_and_the_index_of_each_image() {
    let images = vec![filled(4, 2, RED), filled(1, 7, BLUE), filled(0, 0, RED)];
    let items = measure(&images);
    let seen: Vec<(u32, u32, usize)> = items
        .iter()
        .map(|i| (i.width, i.height, i.payload))
        .collect();
    assert_eq!(seen, vec![(4, 2, 0), (1, 7, 1), (0, 0, 2)]);
    assert!(measure(&Vec::new()).is_empty());
}

#[test]
fn draw_follows_the_sheet_it_is_given() {
    let images = vec![numbered(1, 2, 2), numbered(2, 2, 2)];
    let items = vec![
        PackingItem {
            width: 2,
            height: 2,
            payload: 0usize,
        },
        PackingItem {
            width: 2,
            height: 2,
            payload: 1,
        },
    ];
    // on a canvas 3 wide the second item goes below the first
    let sheet = pack_on_canvas(&items, 1, 3, 8).unwrap();
    assert_eq!(sheet.placements[0].rect, rect(0, 0, 3, 3));
    assert_eq!(sheet.placements[1].rect, rect(0, 3, 3, 3));
    let picture = draw(&images, &sheet, 1);
    assert_eq!(picture.dimensions(), (4, 7));
    assert_eq!(picture.get_pixel(1, 1), Rgba([1, 0, 0, 255]));
    assert_eq!(picture.get_pixel(2, 2), Rgba([1, 1, 1, 255]));
    assert_eq!(picture.get_pixel(1, 4), Rgba([2, 0, 0, 255]));
    assert_eq!(picture.get_pixel(2, 5), Rgba([2, 1, 1, 255]));
    assert_eq!(picture.get_pixel(0, 0), CLEAR);
    assert_eq!(picture.get_pixel(3, 6), CLEAR);
    assert_eq!(picture.get_pixel(1, 3), CLEAR);
}

#[test]
fn can_hold_counts_four_bytes_a_pixel() {
    assert!(can_hold(0, 0));
    assert!(can_hold(1, 1));
    assert!(can_hold(4096, 4096));
    let fits = |w: u32, h: u32| {
        4u128 * (w as u128) <= usize::MAX as u128
            && 4u128 * (w as u128) * (h as u128) <= isize::MAX as u128
    };
    for (w, h) in [
        (u32::MAX, u32::MAX),
        (MAX_CANVAS_SIDE, MAX_CANVAS_SIDE),
        (u32::MAX, 1),
        (u32::MAX, 0),
        (0, u32::MAX),
        (1 << 30, 0),
        (1 << 16, 1 << 15),
        (1 << 16, 1 << 13),
        (23170, 23170),
        (23171, 23171),
        (1 << 31, 1 << 30),
        (1 << 31, 1 << 29),
        (1 << 31, (1 << 30) - 1),
    ] {
        assert_eq!(can_hold(w, h), fits(w, h), "{} by {}", w, h);
    }
    assert!(!can_hold(u32::MAX, u32::MAX));
}

#[test]
fn run_packs_with_the_padding_of_the_configuration() {
    let images = vec![filled(1, 1, RED), filled(3, 3, BLUE)];
    let config = Config {
        padding: 2,
        input_dir: String::from("sprites"),
        output_file: String::from("sheet.png"),
    };
    let atlas = run(&config, &images).unwrap();
    assert_eq!(atlas.image.dimensions(), (10, 7));
    assert_eq!(atlas.image.get_pixel(3, 3), BLUE);
    assert_eq!(atlas.image.get_pixel(7, 2), RED);
    assert_eq!(atlas.image.get_pixel(0, 0), CLEAR);
    check_picture(&atlas, &images, 2);
    let same = pack_images(2, &images).unwrap();
    assert_eq!(same.image, atlas.image);
    let config = Config {
        padding: 0,
        input_dir: String::new(),
        output_file: String::new(),
    };
    let atlas = run(&config, &images).unwrap();
    assert_eq!(atlas.image.dimensions(), (4, 3));
    check_picture(&atlas, &images, 0);
}

#[test]
fn packing_the_same_images_twice_gives_the_same_picture() {
    let mut images = vec![];
    for (i, (w, h)) in many_dims().iter().enumerate() {
        images.push(numbered(i as u8, *w, *h));
    }
    let first = pack_images(2, &images).unwrap();
    let second = pack_images(2, &images).unwrap();
    assert_eq!(first.image, second.image);
    let places = |a: &Atlas| -> Vec<(usize, BoundingBox)> {
        a.sheet.placements.iter().map(|p| (p.payload, p.rect)).collect()
    };
    assert_eq!(places(&first), places(&second));
    assert_eq!(first.sheet.total_bounding_box, second.sheet.total_bounding_box);
}

fn float_rgb(w: u32, h: u32, value: f32) -> DynamicImage {
    DynamicImage::ImageRgb32F(image::Rgb32FImage::from_pixel(
        w,
        h,
        image::Rgb([value, value, value]),
    ))
}

fn float_rgba(w: u32, h: u32, value: f32) -> DynamicImage {
    DynamicImage::ImageRgba32F(image::Rgba32FImage::from_pixel(
        w,
        h,
        image::Rgba([value, value, value, 1.0]),
    ))
}

#[test]
fn images_of_integer_pixels_are_drawable() {
    let images = vec![
        DynamicImage::ImageLuma8(image::GrayImage::new(1, 1)),
        DynamicImage::ImageLumaA8(image::GrayAlphaImage::new(1, 1)),
        DynamicImage::ImageRgb8(image::RgbImage::new(1, 1)),
        DynamicImage::ImageRgba8(image::RgbaImage::new(1, 1)),
        DynamicImage::ImageLuma16(image::ImageBuffer::new(1, 1)),
        DynamicImage::ImageLumaA16(image::ImageBuffer::new(1, 1)),
        DynamicImage::ImageRgb16(image::ImageBuffer::new(1, 1)),
        DynamicImage::ImageRgba16(image::ImageBuffer::new(1, 1)),
    ];
    assert!(all_drawable(&images));
    assert!(all_drawable(&Vec::new()));
    let atlas = pack_images(1, &images).unwrap();
    assert_eq!(atlas.sheet.placements.len(), 8);
    check_picture(&atlas, &images, 1);
}

#[test]
fn sixteen_bit_pixels_are_scaled_to_eight() {
    let deep = DynamicImage::ImageRgba16(image::ImageBuffer::from_pixel(
        1,
        1,
        image::Rgba([65535u16, 32768, 257, 0]),
    ));
    let atlas = pack_images(0, &vec![deep]).unwrap();
    assert_eq!(atlas.image.get_pixel(0, 0), Rgba([255, 128, 1, 0]));
}

#[test]
fn images_of_float_pixels_are_refused() {
    assert!(!all_drawable(&vec![float_rgb(1, 1, 0.5)]));
    assert!(!all_drawable(&vec![float_rgba(1, 1, 0.5)]));
    assert!(!all_drawable(&vec![
        filled(1, 1, RED),
        float_rgb(1, 1, 0.5),
        filled(1, 1, BLUE)
    ]));
    for images in [
        vec![float_rgb(2, 2, 0.5)],
        vec![float_rgba(2, 2, 0.5)],
        vec![filled(3, 3, RED), float_rgba(1, 1, 0.25)],
        vec![float_rgb(1, 1, f32::NAN)],
        vec![filled(1, 1, BLUE), float_rgba(1, 1, f32::NAN)],
    ] {
        assert_eq!(
            pack_images(2, &images).err(),
            Some(PackError::UnsupportedImage)
        );
        let config = Config {
            padding: 0,
            input_dir: String::new(),
            output_file: String::new(),
        };
        assert_eq!(run(&config, &images).err(), Some(PackError::UnsupportedImage));
    }
}
