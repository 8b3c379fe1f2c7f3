use corral::canvas::{double, grow, MAX_CANVAS_SIDE};
use corral::collection::{estimate_side, ImageCollection};
use corral::packer::{
    fill, pack, pack_from_estimate, pack_on_canvas, Config, PackError, PackingItem,
    DEFAULT_PADDING,
};
use corral::sheet::{read_sheet, total_bounding_box, PackedSheet, Placement};
use corral::sorting::sort_by_area;
use corral::tree2d::{BoundingBox, Tree2d};

fn rect(x: u32, y: u32, width: u32, height: u32) -> BoundingBox {
    BoundingBox {
        x,
        y,
        width,
        height,
    }
}

fn item<T>(width: u32, height: u32, payload: T) -> PackingItem<T> {
    PackingItem {
        width,
        height,
        payload,
    }
}

fn shown<T: Copy>(sheet: &PackedSheet<T>) -> Vec<(T, BoundingBox)> {
    sheet.placements.iter().map(|p| (p.payload, p.rect)).collect()
}

fn apart(a: &BoundingBox, b: &BoundingBox) -> bool {
    a.x + a.width <= b.x
        || b.x + b.width <= a.x
        || a.y + a.height <= b.y
        || b.y + b.height <= a.y
}

/// Checks on a sheet what holds of every packing: no two placements overlap,
/// all lie inside the bounding box, every item is placed once, and the
/// bounding box is no larger than it must be.
fn check_sheet(sheet: &PackedSheet<usize>, items: &[PackingItem<usize>], padding: u32) {
    let placements = &sheet.placements;
    let bb = sheet.total_bounding_box;
    for i in 0..placements.len() {
        for j in (i + 1)..placements.len() {
            assert!(
                apart(&placements[i].rect, &placements[j].rect),
                "{:?} overlaps {:?}",
                placements[i],
                placements[j]
            );
        }
    }
    assert_eq!((bb.x, bb.y), (0, 0));
    let final_width = bb.width.checked_add(padding).unwrap();
    let final_height = bb.height.checked_add(padding).unwrap();
    for p in placements.iter() {
        assert!(p.rect.x + p.rect.width <= bb.width);
        assert!(p.rect.y + p.rect.height <= bb.height);
        assert!(p.rect.x + p.rect.width <= final_width);
        assert!(p.rect.y + p.rect.height <= final_height);
    }
    assert_eq!(placements.len(), items.len());
    let mut seen = vec![false; items.len()];
    for p in placements.iter() {
        assert!(!seen[p.payload], "item {} was placed twice", p.payload);
        seen[p.payload] = true;
        let it = &items[p.payload];
        assert_eq!(it.payload, p.payload);
        assert_eq!(p.rect.width, it.width + padding);
        assert_eq!(p.rect.height, it.height + padding);
    }
    assert!(seen.iter().all(|s| *s));
    if !placements.is_empty() {
        let x_end = placements.iter().map(|p| p.rect.x + p.rect.width).max();
        let y_end = placements.iter().map(|p| p.rect.y + p.rect.height).max();
        assert_eq!(Some(bb.width), x_end);
        assert_eq!(Some(bb.height), y_end);
    }
}

fn many_dims() -> Vec<(u32, u32)> {
    let mut dims = vec![];
    for _ in 0..3 {
        dims.extend_from_slice(&[
            (128, 96),
            (96, 128),
            (64, 96),
            (96, 64),
            (64, 64),
            (96, 96),
            (256, 64),
        ]);
        dims.extend_from_slice(&[(32, 32); 4]);
        dims.extend_from_slice(&[(42, 42); 6]);
    }
    dims.extend_from_slice(&[(16, 16); 26]);
    dims.extend_from_slice(&[(8, 8); 21]);
    dims
}

fn indexed(dims: &[(u32, u32)]) -> Vec<PackingItem<usize>> {
    dims.iter()
        .enumerate()
        .map(|(i, (w, h))| item(*w, *h, i))
        .collect()
}

#[test]
fn single_item() {
    let sheet = pack_from_estimate(vec![item(1, 1, "a")], 1).unwrap();
    assert_eq!(shown(&sheet), vec![("a", rect(0, 0, 2, 2))]);
    assert_eq!(sheet.total_bounding_box, rect(0, 0, 2, 2));
    // the sheet is one padding wider and higher than the bounding box
    assert_eq!(sheet.total_bounding_box.width + 1, 3);
    assert_eq!(sheet.total_bounding_box.height + 1, 3);
}

#[test]
fn single_item_on_a_larger_canvas_has_the_same_sheet() {
    let sheet = pack_on_canvas(&vec![item(1, 1, "a")], 1, 64, 64).unwrap();
    assert_eq!(shown(&sheet), vec![("a", rect(0, 0, 2, 2))]);
    assert_eq!(sheet.total_bounding_box, rect(0, 0, 2, 2));
}

#[test]
fn two_items_requiring_a_split_on_a_4x4_canvas() {
    let items = vec![item(3, 3, "a"), item(1, 1, "b")];
    let sheet = pack(items, 0, |_: &ImageCollection<&str>, _: u32| (4, 4)).unwrap();
    assert_eq!(
        shown(&sheet),
        vec![("a", rect(0, 0, 3, 3)), ("b", rect(3, 0, 1, 1))]
    );
    assert_eq!(sheet.total_bounding_box, rect(0, 0, 4, 3));
}

#[test]
fn the_estimate_sees_the_collection_and_the_padding() {
    let items = vec![item(1, 7, 'x'), item(5, 2, 'y'), item(2, 2, 'z')];
    let sheet = pack(items, 3, |c: &ImageCollection<char>, padding: u32| {
        assert_eq!(c.num_images, 3);
        assert_eq!(c.max_width, 5);
        assert_eq!(c.max_height, 7);
        assert_eq!(padding, 3);
        let order: Vec<char> = c.named_images.iter().map(|i| i.payload).collect();
        assert_eq!(order, vec!['y', 'x', 'z']);
        (100, 100)
    })
    .unwrap();
    assert_eq!(sheet.placements.len(), 3);
}

#[test]
fn the_largest_is_packed_first_and_the_canvas_grows() {
    // sorted: "b" (area 9), then "a" (area 1); the estimate is 5x5, which
    // "b" with its padding fills; for "a" the canvas widens to 10x5
    let sheet = pack_from_estimate(vec![item(1, 1, "a"), item(3, 3, "b")], 2).unwrap();
    assert_eq!(
        shown(&sheet),
        vec![("b", rect(0, 0, 5, 5)), ("a", rect(5, 0, 3, 3))]
    );
    assert_eq!(sheet.total_bounding_box, rect(0, 0, 8, 5));
}

#[test]
fn canvas_too_small_triggers_growth() {
    let items = vec![item(5, 5, "a")];
    // the canvas cannot take the item as it is
    let mut tree = Tree2d::<&str>::new(1, 1);
    assert_eq!(fill(&mut tree, &items, 0), 0);
    assert!(tree.flatten().is_empty());
    // 1x1 -> 2x1 -> 4x1 -> 8x1 -> 8x2 -> 8x4 -> 8x8
    let sheet = pack_on_canvas(&items, 0, 1, 1).unwrap();
    assert_eq!(shown(&sheet), vec![("a", rect(0, 0, 5, 5))]);
    assert_eq!(sheet.total_bounding_box, rect(0, 0, 5, 5));
}

#[test]
fn growth_starts_the_packing_over() {
    // "a" fills the 3x3 canvas; for "b" it widens to 6x3 and both are placed
    // anew
    let items = vec![item(3, 3, "a"), item(3, 3, "b")];
    let mut tree = Tree2d::<&str>::new(3, 3);
    assert_eq!(fill(&mut tree, &items, 0), 1);
    let sheet = pack_on_canvas(&items, 0, 3, 3).unwrap();
    assert_eq!(
        shown(&sheet),
        vec![("a", rect(0, 0, 3, 3)), ("b", rect(3, 0, 3, 3))]
    );
    assert_eq!(sheet.total_bounding_box, rect(0, 0, 6, 3));
}

#[test]
fn grow_doubles_one_side() {
    // a side that is shorter than the item grows, the width first
    assert_eq!(grow(1, 1, 5, 5), Some((2, 1)));
    assert_eq!(grow(8, 1, 5, 5), Some((8, 2)));
    assert_eq!(grow(1, 8, 5, 5), Some((2, 8)));
    // both long enough: the shorter side grows, the width where equal
    assert_eq!(grow(4, 4, 2, 2), Some((8, 4)));
    assert_eq!(grow(8, 4, 2, 2), Some((8, 8)));
    assert_eq!(grow(4, 8, 2, 2), Some((8, 8)));
}

#[test]
fn grow_stops_at_the_limit() {
    assert_eq!(
        grow(MAX_CANVAS_SIDE, 4, 2, 2),
        Some((MAX_CANVAS_SIDE, 8))
    );
    assert_eq!(
        grow(4, MAX_CANVAS_SIDE, 2, 2),
        Some((8, MAX_CANVAS_SIDE))
    );
    assert_eq!(
        grow(MAX_CANVAS_SIDE, 4, 2, 9),
        Some((MAX_CANVAS_SIDE, 8))
    );
    assert_eq!(
        grow(MAX_CANVAS_SIDE - 1, MAX_CANVAS_SIDE, 2, 2),
        Some((MAX_CANVAS_SIDE, MAX_CANVAS_SIDE))
    );
    assert_eq!(grow(MAX_CANVAS_SIDE, MAX_CANVAS_SIDE, 2, 2), None);
    assert_eq!(grow(u32::MAX, u32::MAX, 2, 2), None);
}

#[test]
fn double_saturates() {
    assert_eq!(MAX_CANVAS_SIDE, 2147483647);
    assert_eq!(double(0), 1);
    assert_eq!(double(1), 2);
    assert_eq!(double(300), 600);
    assert_eq!(double(0x3FFF_FFFF), 0x7FFF_FFFE);
    assert_eq!(double(0x4000_0000), MAX_CANVAS_SIDE);
    assert_eq!(double(MAX_CANVAS_SIDE), MAX_CANVAS_SIDE);
    assert_eq!(double(u32::MAX), MAX_CANVAS_SIDE);
}

#[test]
fn fill_stops_at_the_first_item_without_room() {
    let items = vec![item(2, 2, 0u8), item(9, 9, 1), item(1, 1, 2)];
    let mut tree = Tree2d::<u8>::new(4, 4);
    assert_eq!(fill(&mut tree, &items, 0), 1);
    let flat = tree.flatten_footprints();
    assert_eq!(flat.len(), 1);
    assert_eq!((*flat[0].0, flat[0].1), (0, rect(0, 0, 2, 2)));
}

#[test]
fn fill_adds_the_padding_to_each_item() {
    let items = vec![item(2, 1, 'a'), item(1, 1, 'b')];
    let mut tree = Tree2d::<char>::new(8, 8);
    assert_eq!(fill(&mut tree, &items, 2), 2);
    let flat = tree.flatten_footprints();
    assert_eq!((*flat[0].0, flat[0].1), ('a', rect(0, 0, 4, 3)));
    // 4 left beside, 5 left below: the strip to the right is 4x3
    assert_eq!((*flat[1].0, flat[1].1), ('b', rect(4, 0, 3, 3)));
}

#[test]
fn fill_treats_a_footprint_beyond_u32_as_without_room() {
    let items = vec![item(u32::MAX, 1, 0u8)];
    let mut tree = Tree2d::<u8>::new(4, 4);
    assert_eq!(fill(&mut tree, &items, 1), 0);
    assert!(!tree.is_node());
}

#[test]
fn empty_input_gives_an_empty_sheet() {
    let sheet = pack_from_estimate(Vec::<PackingItem<u8>>::new(), 2).unwrap();
    assert!(sheet.placements.is_empty());
    assert_eq!(sheet.total_bounding_box, rect(0, 0, 0, 0));
    // whatever the canvas
    let sheet = pack_on_canvas(&Vec::<PackingItem<u8>>::new(), 7, 0, 0).unwrap();
    assert!(sheet.placements.is_empty());
    assert_eq!(sheet.total_bounding_box, rect(0, 0, 0, 0));
}

#[test]
fn a_canvas_with_a_side_of_zero_is_invalid() {
    let items = vec![item(1, 1, 0u8)];
    assert_eq!(
        pack_on_canvas(&items, 0, 0, 5).unwrap_err(),
        PackError::InvalidCanvas
    );
    assert_eq!(
        pack_on_canvas(&items, 0, 5, 0).unwrap_err(),
        PackError::InvalidCanvas
    );
    assert_eq!(
        pack(items, 0, |_: &ImageCollection<u8>, _: u32| (0, 0)).unwrap_err(),
        PackError::InvalidCanvas
    );
}

#[test]
fn a_canvas_beyond_the_limit_is_invalid() {
    let items = vec![item(1, 1, 0u8)];
    assert_eq!(
        pack_on_canvas(&items, 0, MAX_CANVAS_SIDE + 1, 5).unwrap_err(),
        PackError::InvalidCanvas
    );
    assert_eq!(
        pack_on_canvas(&items, 0, 5, u32::MAX).unwrap_err(),
        PackError::InvalidCanvas
    );
    assert!(pack_on_canvas(&items, 0, MAX_CANVAS_SIDE, MAX_CANVAS_SIDE).is_ok());
}

#[test]
fn an_invalid_canvas_is_reported_before_an_item_that_is_too_large() {
    let items = vec![item(u32::MAX, 1, 0u8)];
    assert_eq!(
        pack_on_canvas(&items, 0, 0, 0).unwrap_err(),
        PackError::InvalidCanvas
    );
}

#[test]
fn an_item_beyond_the_limit_is_too_large() {
    let wide = vec![item(1, 1, 0u8), item(MAX_CANVAS_SIDE, 1, 1)];
    assert_eq!(
        pack_on_canvas(&wide, 1, 4, 4).unwrap_err(),
        PackError::ItemTooLarge
    );
    let high = vec![item(1, MAX_CANVAS_SIDE + 1, 0u8)];
    assert_eq!(
        pack_on_canvas(&high, 0, 4, 4).unwrap_err(),
        PackError::ItemTooLarge
    );
    let beyond_u32 = vec![item(u32::MAX, 1, 0u8)];
    assert_eq!(
        pack_on_canvas(&beyond_u32, u32::MAX, 4, 4).unwrap_err(),
        PackError::ItemTooLarge
    );
    assert_eq!(
        pack_from_estimate(vec![item(MAX_CANVAS_SIDE, 1, 0u8)], 1).unwrap_err(),
        PackError::ItemTooLarge
    );
}

#[test]
fn an_item_at_the_limit_is_packed() {
    let items = vec![item(MAX_CANVAS_SIDE - 1, 1, 0u8)];
    let sheet = pack_on_canvas(&items, 1, 1, 1).unwrap();
    assert_eq!(shown(&sheet), vec![(0, rect(0, 0, MAX_CANVAS_SIDE, 2))]);
}

#[test]
fn items_that_no_canvas_holds_end_in_canvas_too_large() {
    let items = vec![item(MAX_CANVAS_SIDE, MAX_CANVAS_SIDE, 0u8), item(1, 1, 1)];
    assert_eq!(
        pack_on_canvas(&items, 0, MAX_CANVAS_SIDE, MAX_CANVAS_SIDE).unwrap_err(),
        PackError::CanvasTooLarge
    );
    // from a small canvas on, after the canvas has grown to the limit
    assert_eq!(
        pack_on_canvas(&items, 0, 1, 1).unwrap_err(),
        PackError::CanvasTooLarge
    );
    assert_eq!(pack_from_estimate(items, 0).unwrap_err(), PackError::CanvasTooLarge);
}

#[test]
fn sort_is_by_descending_area_and_stable() {
    let items = vec![
        item(1, 1, 0u8),
        item(2, 2, 1),
        item(1, 4, 2),
        item(4, 1, 3),
        item(3, 3, 4),
        item(2, 2, 5),
    ];
    let sorted = sort_by_area(&items);
    let order: Vec<u8> = sorted.iter().map(|i| i.payload).collect();
    assert_eq!(order, vec![4, 1, 2, 3, 5, 0]);
    let sizes: Vec<(u32, u32)> = sorted.iter().map(|i| (i.width, i.height)).collect();
    assert_eq!(sizes, vec![(3, 3), (2, 2), (1, 4), (4, 1), (2, 2), (1, 1)]);
}

#[test]
fn sort_compares_areas_beyond_u32() {
    let items = vec![item(65535, 65535, 'a'), item(65536, 65536, 'b'), item(1, 1, 'c')];
    assert_eq!(items[1].area(), 4294967296u64);
    let sorted = sort_by_area(&items);
    let order: Vec<char> = sorted.iter().map(|i| i.payload).collect();
    assert_eq!(order, vec!['b', 'a', 'c']);
}

#[test]
fn sort_of_nothing_and_of_one() {
    assert!(sort_by_area(&Vec::<PackingItem<u8>>::new()).is_empty());
    let one = sort_by_area(&vec![item(2, 3, 9u8)]);
    assert_eq!(one.len(), 1);
    assert_eq!((one[0].width, one[0].height, one[0].payload), (2, 3, 9));
}

#[test]
fn collection_measures_and_sorts() {
    let c = ImageCollection::new(vec![item(1, 7, 'x'), item(5, 2, 'y'), item(2, 2, 'z')]);
    assert_eq!(c.max_width, 5);
    assert_eq!(c.max_height, 7);
    assert_eq!(c.num_images, 3);
    let order: Vec<char> = c.named_images.iter().map(|i| i.payload).collect();
    assert_eq!(order, vec!['y', 'x', 'z']);
    let none = ImageCollection::new(Vec::<PackingItem<u8>>::new());
    assert_eq!((none.max_width, none.max_height, none.num_images), (0, 0, 0));
    assert!(none.named_images.is_empty());
}

#[test]
fn canvas_estimate_is_the_largest_footprint_in_each_direction() {
    let c = ImageCollection::new(vec![item(1, 7, 'x'), item(5, 2, 'y')]);
    assert_eq!(c.canvas_estimate(2), (7, 9));
    assert_eq!(c.canvas_estimate(0), (5, 7));
    let none = ImageCollection::new(Vec::<PackingItem<u8>>::new());
    assert_eq!(none.canvas_estimate(0), (1, 1));
    assert_eq!(none.canvas_estimate(3), (3, 3));
    assert_eq!(estimate_side(0, 0), 1);
    assert_eq!(estimate_side(10, 5), 15);
    assert_eq!(estimate_side(MAX_CANVAS_SIDE, 0), MAX_CANVAS_SIDE);
    assert_eq!(estimate_side(MAX_CANVAS_SIDE, 1), MAX_CANVAS_SIDE);
    assert_eq!(estimate_side(u32::MAX, u32::MAX), MAX_CANVAS_SIDE);
}

#[test]
fn total_bounding_box_is_the_fold_of_the_unions() {
    let none: Vec<Placement<u8>> = vec![];
    assert_eq!(total_bounding_box(&none), rect(0, 0, 0, 0));
    let one = vec![Placement {
        payload: 0u8,
        rect: rect(3, 4, 5, 6),
    }];
    assert_eq!(total_bounding_box(&one), rect(3, 4, 5, 6));
    let three = vec![
        Placement {
            payload: 0u8,
            rect: rect(3, 4, 5, 6),
        },
        Placement {
            payload: 1,
            rect: rect(1, 9, 1, 1),
        },
        Placement {
            payload: 2,
            rect: rect(10, 0, 2, 2),
        },
    ];
    assert_eq!(total_bounding_box(&three), rect(1, 0, 11, 10));
}

#[test]
fn read_sheet_gives_the_footprints_in_preorder() {
    let mut tree = Tree2d::<&str>::new(10, 10);
    assert!(tree.insert(8, 2, "a"));
    assert!(tree.insert(3, 3, "b"));
    assert!(tree.insert(2, 2, "c"));
    let sheet = read_sheet(&tree);
    assert_eq!(
        shown(&sheet),
        vec![
            ("a", rect(0, 0, 8, 2)),
            ("b", rect(0, 2, 3, 3)),
            ("c", rect(3, 2, 2, 2))
        ]
    );
    assert_eq!(sheet.total_bounding_box, rect(0, 0, 8, 5));
}

#[test]
fn many_items_are_packed_without_overlap() {
    let items = indexed(&many_dims());
    assert_eq!(items.len(), 98);
    let sheet = pack_from_estimate(items.clone(), 2).unwrap();
    check_sheet(&sheet, &items, 2);
}

#[test]
fn many_items_are_packed_without_padding() {
    let items = indexed(&many_dims());
    let sheet = pack_from_estimate(items.clone(), 0).unwrap();
    check_sheet(&sheet, &items, 0);
}

#[test]
fn items_of_no_size_are_packed() {
    let items = indexed(&[(0, 0), (3, 0), (0, 3), (2, 2), (0, 0)]);
    let sheet = pack_from_estimate(items.clone(), 0).unwrap();
    check_sheet(&sheet, &items, 0);
    let sheet = pack_from_estimate(items.clone(), 1).unwrap();
    check_sheet(&sheet, &items, 1);
}

#[test]
fn packing_twice_gives_the_same_sheet() {
    let items = indexed(&many_dims());
    let first = pack_from_estimate(items.clone(), 2).unwrap();
    let second = pack_from_estimate(items.clone(), 2).unwrap();
    assert_eq!(shown(&first), shown(&second));
    assert_eq!(first.total_bounding_box, second.total_bounding_box);
    let first = pack_on_canvas(&items, 1, 16, 16).unwrap();
    let second = pack_on_canvas(&items, 1, 16, 16).unwrap();
    assert_eq!(shown(&first), shown(&second));
    assert_eq!(first.total_bounding_box, second.total_bounding_box);
}

#[test]
fn parse_takes_the_two_paths() {
    let args = vec![
        String::from("corral"),
        String::from("sprites"),
        String::from("sheet.png"),
    ];
    let config = Config::parse(&args).unwrap();
    assert_eq!(config.padding, 2);
    assert_eq!(config.padding, DEFAULT_PADDING);
    assert_eq!(config.input_dir, "sprites");
    assert_eq!(config.output_file, "sheet.png");
}

#[test]
fn parse_ignores_further_arguments() {
    let args = vec![
        String::from("corral"),
        String::from("a"),
        String::from("b"),
        String::from("c"),
    ];
    let config = Config::parse(&args).unwrap();
    assert_eq!(config.input_dir, "a");
    assert_eq!(config.output_file, "b");
}

#[test]
fn parse_with_too_few_arguments_fails() {
    let usage = "Too few arguments, call like: `corral input_dir output_sheet.png`";
    assert_eq!(Config::parse(&[]).unwrap_err(), usage);
    assert_eq!(Config::parse(&[String::from("corral")]).unwrap_err(), usage);
    assert_eq!(
        Config::parse(&[String::from("corral"), String::from("sprites")]).unwrap_err(),
        usage
    );
}

#[test]
fn every_error_has_its_message() {
    assert_eq!(
        PackError::InvalidCanvas.message(),
        "the canvas is empty or longer than the limit"
    );
    assert_eq!(
        PackError::ItemTooLarge.message(),
        "an image is larger than any canvas may be"
    );
    assert_eq!(
        PackError::CanvasTooLarge.message(),
        "the images do not fit on the largest canvas"
    );
    assert_eq!(
        PackError::UnsupportedImage.message(),
        "an image holds floating-point pixels"
    );
}

#[test]
fn final_size_is_one_padding_more_than_the_bounding_box() {
    let sheet = pack_from_estimate(vec![item(1, 1, "a"), item(3, 3, "b")], 2).unwrap();
    assert_eq!(sheet.total_bounding_box, rect(0, 0, 8, 5));
    assert_eq!(sheet.final_size(2), Some((10, 7)));
    assert_eq!(sheet.final_size(0), Some((8, 5)));
    assert_eq!(sheet.final_size(u32::MAX - 8), Some((u32::MAX, u32::MAX - 3)));
    assert_eq!(sheet.final_size(u32::MAX - 7), None);
    let tall = PackedSheet::<u8> {
        placements: vec![],
        total_bounding_box: rect(0, 0, 1, u32::MAX),
    };
    assert_eq!(tall.final_size(1), None);
    assert_eq!(tall.final_size(0), Some((1, u32::MAX)));
}
