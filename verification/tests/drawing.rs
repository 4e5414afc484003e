use quadtree_over_media::drawing::{
    adjust_quad_size, apply_background_color, blit, can_resize, draw_image, draw_quads,
    draw_quads_ordered, draw_quads_simple, draw_square, draw_tile, fill_rect, is_color_between,
    multiply_image_by, multiply_pixels, TileCache, MAX_RESIZE_EXTENT,
};
use quadtree_over_media::quad::default_color;
use quadtree_over_media::raster::Raster;
use quadtree_over_media::utils::{QuadInfo, QuadMap, QuadStructure, Rgba, Vec2};

fn rgba(c: [u8; 4]) -> Rgba {
    Rgba { r: c[0], g: c[1], b: c[2], a: c[3] }
}

fn grey(v: u8) -> Rgba {
    rgba([v, v, v, v])
}

const CLEAR: Rgba = Rgba { r: 0, g: 0, b: 0, a: 0 };
const RED: Rgba = Rgba { r: 255, g: 0, b: 0, a: 255 };
const BLUE: Rgba = Rgba { r: 0, g: 0, b: 255, a: 255 };

fn multiplies_pixels(a: [u8; 4], b: [u8; 4], expects: [u8; 4]) {
    assert_eq!(multiply_pixels(&rgba(a), &rgba(b)), rgba(expects))
}

#[test]
fn multiplies_pixels_6666x6666() {
    multiplies_pixels([96, 96, 96, 96], [96, 96, 96, 96], [36, 36, 36, 36]);
}

#[test]
fn multiplies_pixels_6666x_ffff() {
    multiplies_pixels([96, 96, 96, 96], [255, 255, 255, 255], [96, 96, 96, 96]);
}

#[test]
fn multiplies_pixels_1f2ex_ffff() {
    multiplies_pixels([11, 255, 22, 238], [255, 255, 255, 255], [11, 255, 22, 238]);
}

#[test]
fn multiplies_pixels_1f2ex0000() {
    multiplies_pixels([11, 255, 22, 238], [0, 0, 0, 0], [0, 0, 0, 0]);
}

#[test]
fn multiplies_pixels_1f2ex8888() {
    multiplies_pixels([11, 255, 22, 238], [136, 136, 136, 136], [5, 136, 11, 126]);
}

/* 0,0|AB e\|  X=(2,2)
 *    |CD f\|__ missing pixel
 *    |gh x\|
 *    |\\ \Z|
 */
fn test_quadtree() -> QuadMap {
    let mut m = QuadMap::new();
    for (x, y) in [(0, 0), (2, 0), (0, 2), (2, 2), (5, 0), (5, 2), (0, 5), (2, 5), (5, 5), (7, 7)] {
        m.insert(Vec2 { x, y }, QuadInfo::new(1));
    }
    m
}

const TEST_QUAD_SIZE: Vec2 = Vec2 { x: 2, y: 2 };

fn adjusts_size(pos: Vec2, expect_size: Vec2) {
    assert_eq!(
        adjust_quad_size(&pos, &TEST_QUAD_SIZE, &test_quadtree(), &Vec2 { x: 9, y: 9 }),
        expect_size
    )
}

#[test]
fn adjusts_size_none_rb() {
    adjusts_size(Vec2 { x: 0, y: 0 }, TEST_QUAD_SIZE);
}

#[test]
fn adjusts_size_expand_x() {
    adjusts_size(Vec2 { x: 2, y: 0 }, Vec2 { x: 3, y: 2 });
}

#[test]
fn adjusts_size_expand_y() {
    adjusts_size(Vec2 { x: 0, y: 2 }, Vec2 { x: 2, y: 3 });
}

#[test]
fn adjusts_size_expand_both() {
    adjusts_size(Vec2 { x: 2, y: 2 }, Vec2 { x: 3, y: 3 });
}

#[test]
fn adjusts_size_at_bounds() {
    adjusts_size(Vec2 { x: 7, y: 7 }, TEST_QUAD_SIZE);
}

#[test]
fn colour_range_is_inclusive() {
    let lo = rgba([10, 20, 30, 40]);
    let hi = rgba([20, 30, 40, 50]);
    assert!(is_color_between(&Some(lo), &lo, &hi));
    assert!(is_color_between(&Some(hi), &lo, &hi));
    assert!(is_color_between(&Some(rgba([15, 25, 35, 45])), &lo, &hi));
    assert!(!is_color_between(&Some(rgba([9, 25, 35, 45])), &lo, &hi));
    assert!(!is_color_between(&Some(rgba([15, 31, 35, 45])), &lo, &hi));
    assert!(!is_color_between(&Some(rgba([15, 25, 29, 45])), &lo, &hi));
    assert!(!is_color_between(&Some(rgba([15, 25, 35, 51])), &lo, &hi));
    assert!(!is_color_between(&None, &rgba([0, 0, 0, 0]), &rgba([255, 255, 255, 255])));
}

fn expect(img: &Raster, f: impl Fn(u32, u32) -> Rgba) {
    for y in 0..img.height {
        for x in 0..img.width {
            assert_eq!(img.get_pixel(x, y), f(x, y), "pixel ({x},{y})");
        }
    }
}

#[test]
fn fills_a_rectangle() {
    let mut img = Raster::new(6, 5);
    fill_rect(&mut img, &Vec2 { x: 1, y: 2 }, &Vec2 { x: 3, y: 2 }, &RED);
    expect(&img, |x, y| if (1..4).contains(&x) && (2..4).contains(&y) { RED } else { CLEAR });
    fill_rect(&mut img, &Vec2 { x: 9, y: 9 }, &Vec2 { x: 0, y: 3 }, &BLUE);
    expect(&img, |x, y| if (1..4).contains(&x) && (2..4).contains(&y) { RED } else { CLEAR });
}

#[test]
fn draws_outline_on_top_and_left() {
    let mut img = Raster::new(6, 6);
    draw_square(&mut img, &Vec2 { x: 1, y: 2 }, &Vec2 { x: 4, y: 3 }, &RED, &None);
    expect(&img, |x, y| {
        if (y == 2 && (1..5).contains(&x)) || (x == 1 && (2..5).contains(&y)) {
            RED
        } else {
            CLEAR
        }
    });
}

#[test]
fn draws_filled_square_under_its_outline() {
    let mut img = Raster::new(6, 6);
    draw_square(&mut img, &Vec2 { x: 1, y: 2 }, &Vec2 { x: 4, y: 3 }, &RED, &Some(BLUE));
    expect(&img, |x, y| {
        if (y == 2 && (1..5).contains(&x)) || (x == 1 && (2..5).contains(&y)) {
            RED
        } else if (2..5).contains(&x) && (3..5).contains(&y) {
            BLUE
        } else {
            CLEAR
        }
    });
}

#[test]
fn draws_flat_square_as_a_line() {
    let mut img = Raster::new(4, 4);
    draw_square(&mut img, &Vec2 { x: 0, y: 3 }, &Vec2 { x: 4, y: 0 }, &RED, &Some(BLUE));
    expect(&img, |_, y| if y == 3 { RED } else { CLEAR });
}

#[test]
fn blits_a_tile() {
    let mut img = Raster::from_pixel(5, 4, grey(9));
    let mut tile = Raster::new(2, 3);
    for y in 0..3 {
        for x in 0..2 {
            tile.put_pixel(x, y, rgba([x as u8, y as u8, 7, 255]));
        }
    }
    blit(&mut img, &tile, &Vec2 { x: 3, y: 1 });
    expect(&img, |x, y| {
        if x >= 3 && y >= 1 {
            rgba([(x - 3) as u8, (y - 1) as u8, 7, 255])
        } else {
            grey(9)
        }
    });
}

#[test]
fn multiplies_an_image() {
    let mut src = Raster::from_pixel(3, 2, rgba([11, 255, 22, 238]));
    src.put_pixel(2, 1, rgba([96, 96, 96, 96]));
    let out = multiply_image_by(&src, &grey(136));
    assert_eq!((out.width, out.height), (3, 2));
    expect(&out, |x, y| if (x, y) == (2, 1) { rgba([51, 51, 51, 51]) } else { rgba([5, 136, 11, 126]) });
}

#[test]
fn background_replaces_transparent_and_tints_translucent() {
    let mut src = Raster::from_pixel(3, 1, rgba([10, 20, 30, 255]));
    src.put_pixel(1, 0, rgba([10, 20, 30, 0]));
    src.put_pixel(2, 0, rgba([255, 128, 0, 128]));
    let backdrop = rgba([200, 100, 50, 255]);
    let out = apply_background_color(&src, &backdrop);
    assert_eq!(out.get_pixel(0, 0), rgba([10, 20, 30, 255]));
    assert_eq!(out.get_pixel(1, 0), backdrop);
    assert_eq!(out.get_pixel(2, 0), rgba([200, 50, 0, 128]));
}

#[test]
fn draws_a_tile_with_colour_and_border() {
    let mut img = Raster::new(4, 4);
    let tile = Raster::from_pixel(2, 2, rgba([255, 255, 255, 255]));
    draw_tile(&mut img, &tile, &Vec2 { x: 1, y: 1 }, &Some(RED), &Some(grey(136)));
    expect(&img, |x, y| match (x, y) {
        (1, 1) | (2, 1) | (1, 2) => RED,
        (2, 2) => grey(136),
        _ => CLEAR,
    });
}

#[test]
fn draw_image_resizes_once_per_size() {
    let mut img = Raster::new(8, 8);
    let overlay = Raster::from_pixel(6, 6, CLEAR);
    let mut cache = TileCache::new();
    let size = Vec2 { x: 3, y: 2 };
    draw_image(&mut img, &overlay, &Vec2 { x: 1, y: 1 }, &size, &Some(RED), &None, &mut cache);
    assert_eq!(cache.tiles.len(), 1);
    let tile = cache.tiles.get(&size.key()).unwrap().clone();
    assert_eq!((tile.width, tile.height), (3, 2));
    assert_eq!(tile.data.len(), 3 * 2 * 4);
    draw_image(&mut img, &overlay, &Vec2 { x: 4, y: 5 }, &size, &None, &None, &mut cache);
    assert_eq!(cache.tiles.len(), 1);
    assert_eq!(cache.tiles.get(&size.key()), Some(&tile));
    expect(&img, |x, y| {
        if (y == 1 && (1..4).contains(&x)) || (x == 1 && (1..3).contains(&y)) {
            RED
        } else {
            CLEAR
        }
    });
}

#[test]
fn draw_image_takes_the_tile_from_the_cache() {
    let mut img = Raster::new(4, 4);
    let overlay = Raster::from_pixel(9, 9, grey(1));
    let mut cache = TileCache::new();
    let size = Vec2 { x: 2, y: 2 };
    cache.tiles.insert(size.key(), Raster::from_pixel(2, 2, BLUE));
    draw_image(&mut img, &overlay, &Vec2 { x: 2, y: 0 }, &size, &None, &None, &mut cache);
    expect(&img, |x, y| if x >= 2 && y < 2 { BLUE } else { CLEAR });
}

fn two_level_structure() -> QuadStructure {
    // 8 x 8: the left half in two quads of depth 1, the top-right quarter in
    // four quads of depth 2, the bottom-right quarter in one of depth 1
    let mut map = QuadMap::new();
    map.insert(Vec2 { x: 0, y: 0 }, QuadInfo { depth: 1, color: Some(grey(10)) });
    map.insert(Vec2 { x: 0, y: 4 }, QuadInfo { depth: 1, color: Some(grey(20)) });
    map.insert(Vec2 { x: 4, y: 4 }, QuadInfo { depth: 1, color: Some(grey(30)) });
    map.insert(Vec2 { x: 4, y: 0 }, QuadInfo { depth: 2, color: Some(grey(40)) });
    map.insert(Vec2 { x: 6, y: 0 }, QuadInfo { depth: 2, color: Some(grey(50)) });
    map.insert(Vec2 { x: 4, y: 2 }, QuadInfo { depth: 2, color: Some(grey(60)) });
    map.insert(Vec2 { x: 6, y: 2 }, QuadInfo { depth: 2, color: Some(grey(70)) });
    QuadStructure { map, sizes: vec![Vec2 { x: 8, y: 8 }, Vec2 { x: 4, y: 4 }, Vec2 { x: 2, y: 2 }] }
}

fn quad_of(x: u32, y: u32) -> u8 {
    match (x / 4, y / 4) {
        (0, 0) => 10,
        (0, _) => 20,
        (1, 1) => 30,
        _ => 40 + 10 * (x % 4 / 2) as u8 + 20 * (y % 4 / 2) as u8,
    }
}

fn on_outline(x: u32, y: u32) -> bool {
    if x >= 4 && y < 4 {
        x % 2 == 0 || y % 2 == 0
    } else {
        x % 4 == 0 || y % 4 == 0
    }
}

#[test]
fn outlines_in_the_given_colour() {
    let original = Raster::from_pixel(8, 8, grey(200));
    let out = draw_quads_simple(&original, &two_level_structure(), &Some(RED));
    expect(&out, |x, y| if on_outline(x, y) { RED } else { grey(200) });
    assert_eq!(original, Raster::from_pixel(8, 8, grey(200)));
}

#[test]
fn outlines_in_the_colours_of_the_quads() {
    let original = Raster::from_pixel(8, 8, grey(200));
    let out = draw_quads_simple(&original, &two_level_structure(), &None);
    expect(&out, |x, y| if on_outline(x, y) { grey(quad_of(x, y)) } else { grey(200) });
}

#[test]
fn outlines_in_the_default_colour() {
    let mut map = QuadMap::new();
    map.insert(Vec2 { x: 0, y: 0 }, QuadInfo::new(0));
    let s = QuadStructure { map, sizes: vec![Vec2 { x: 3, y: 3 }] };
    let out = draw_quads_simple(&Raster::new(3, 3), &s, &None);
    assert_eq!(default_color(), rgba([255, 20, 147, 255]));
    expect(&out, |x, y| if x == 0 || y == 0 { default_color() } else { CLEAR });
}

/// the positions of `two_level_structure`, deeper quads first: the quad at
/// (6,2) is drawn one pixel higher than it is and reaches into the quad at
/// (4,4), which is drawn after it
fn deep_first() -> Vec<Vec2> {
    let s = two_level_structure();
    let mut order = s.map.positions();
    order.sort_by_key(|p| (u8::MAX - s.map.get(p).unwrap().depth, p.x, p.y));
    order
}

fn draw_two_levels(
    order: &Vec<Vec2>,
    border: Option<Rgba>,
    background: Option<Rgba>,
    range: Option<[Rgba; 2]>,
) -> Raster {
    draw_quads_ordered(
        &two_level_structure(),
        order,
        &border,
        &background,
        false,
        &None,
        &range,
        &mut TileCache::new(),
    )
}

#[test]
fn fills_quads_with_their_colours() {
    let out = draw_two_levels(&deep_first(), None, Some(BLUE), None);
    assert_eq!((out.width, out.height), (8, 8));
    expect(&out, |x, y| grey(quad_of(x, y)));
}

#[test]
fn fills_quads_under_outlines() {
    let out = draw_two_levels(&deep_first(), Some(RED), None, None);
    expect(&out, |x, y| if on_outline(x, y) { RED } else { grey(quad_of(x, y)) });
}

#[test]
fn grown_quad_is_drawn_over_its_neighbour_when_it_comes_later() {
    let mut order = deep_first();
    order.reverse();
    let out = draw_two_levels(&order, None, Some(BLUE), None);
    expect(&out, |x, y| if y == 4 && x >= 6 { grey(70) } else { grey(quad_of(x, y)) });
}

#[test]
fn walk_of_the_map_draws_every_quad() {
    let out = draw_quads(
        &two_level_structure(),
        &None,
        &Some(BLUE),
        false,
        &None,
        &None,
        &mut TileCache::new(),
    );
    expect(&out, |x, y| {
        if y == 4 && x >= 6 {
            // drawn by the quad at (6,2) or by the one at (4,4), whichever came last
            let got = out.get_pixel(x, y);
            assert!(got == grey(70) || got == grey(30));
            got
        } else {
            grey(quad_of(x, y))
        }
    });
}

#[test]
fn draws_only_quads_in_the_range() {
    let out = draw_two_levels(&deep_first(), None, Some(BLUE), Some([grey(20), grey(40)]));
    expect(&out, |x, y| {
        let q = quad_of(x, y);
        if (20..=40).contains(&q) {
            grey(q)
        } else {
            BLUE
        }
    });
}

#[test]
fn quads_without_colour_fail_every_range() {
    let mut map = QuadMap::new();
    map.insert(Vec2 { x: 0, y: 0 }, QuadInfo::new(0));
    let s = QuadStructure { map, sizes: vec![Vec2 { x: 3, y: 3 }] };
    let out = draw_quads(
        &s,
        &Some(RED),
        &None,
        false,
        &None,
        &Some([grey(0), grey(255)]),
        &mut TileCache::new(),
    );
    expect(&out, |_, _| CLEAR);
}

#[test]
fn quads_without_colour_are_filled_with_the_outline_colour() {
    let mut map = QuadMap::new();
    map.insert(Vec2 { x: 0, y: 0 }, QuadInfo::new(0));
    let s = QuadStructure { map, sizes: vec![Vec2 { x: 3, y: 3 }] };
    let out = draw_quads(&s, &Some(RED), &Some(BLUE), false, &None, &None, &mut TileCache::new());
    expect(&out, |_, _| RED);
}

#[test]
fn quads_without_any_colour_are_filled_with_the_default_colour() {
    let mut map = QuadMap::new();
    map.insert(Vec2 { x: 0, y: 0 }, QuadInfo::new(0));
    let s = QuadStructure { map, sizes: vec![Vec2 { x: 4, y: 4 }] };
    let out = draw_quads(&s, &None, &None, false, &None, &None, &mut TileCache::new());
    assert_eq!((out.width, out.height), (4, 4));
    expect(&out, |_, _| rgba([255, 20, 147, 255]));
}

#[test]
fn fill_image_of_the_size_of_a_quad_is_copied() {
    let mut overlay = Raster::new(3, 3);
    for y in 0..3 {
        for x in 0..3 {
            overlay.put_pixel(x, y, rgba([x as u8 * 100, y as u8 * 100, 7, 255]));
        }
    }
    let mut img = Raster::new(5, 5);
    let mut cache = TileCache::new();
    let size = Vec2 { x: 3, y: 3 };
    draw_image(&mut img, &overlay, &Vec2 { x: 1, y: 2 }, &size, &None, &None, &mut cache);
    assert_eq!(cache.tiles.get(&size.key()), Some(&overlay));
    expect(&img, |x, y| {
        if (1..4).contains(&x) && (2..5).contains(&y) {
            rgba([(x - 1) as u8 * 100, (y - 2) as u8 * 100, 7, 255])
        } else {
            CLEAR
        }
    });
}

#[test]
fn fill_image_without_pixels_gives_transparent_tiles() {
    let overlay = Raster::new(0, 4);
    let mut img = Raster::from_pixel(4, 4, BLUE);
    let mut cache = TileCache::new();
    let size = Vec2 { x: 2, y: 3 };
    draw_image(&mut img, &overlay, &Vec2 { x: 1, y: 0 }, &size, &None, &None, &mut cache);
    assert_eq!(cache.tiles.get(&size.key()), Some(&Raster::new(2, 3)));
    expect(&img, |x, y| if (1..3).contains(&x) && y < 3 { CLEAR } else { BLUE });
}

#[test]
fn resizing_has_its_limits() {
    assert_eq!(MAX_RESIZE_EXTENT, 8_388_608);
    assert!(can_resize(7, 9, 5, 5));
    assert!(can_resize(0, 0, 0, 0));
    assert!(can_resize(MAX_RESIZE_EXTENT, 1, 1, 1));
    assert!(!can_resize(MAX_RESIZE_EXTENT + 1, 1, 1, 1));
    assert!(!can_resize(1, MAX_RESIZE_EXTENT + 1, 1, 1));
    assert!(!can_resize(1, 1, MAX_RESIZE_EXTENT + 1, 1));
    assert!(!can_resize(1, 1, 1, MAX_RESIZE_EXTENT + 1));
    assert!(!can_resize(67_108_854, 1, 134_217_704, 1));
}

fn gapped_structure() -> QuadStructure {
    // 5 x 5 halves to 2 x 2 with one pixel left over on each axis
    let mut map = QuadMap::new();
    map.insert(Vec2 { x: 0, y: 0 }, QuadInfo { depth: 1, color: Some(grey(10)) });
    map.insert(Vec2 { x: 3, y: 0 }, QuadInfo { depth: 1, color: Some(grey(20)) });
    map.insert(Vec2 { x: 0, y: 3 }, QuadInfo { depth: 1, color: Some(grey(30)) });
    map.insert(Vec2 { x: 3, y: 3 }, QuadInfo { depth: 1, color: Some(grey(40)) });
    QuadStructure { map, sizes: vec![Vec2 { x: 5, y: 5 }, Vec2 { x: 2, y: 2 }] }
}

#[test]
fn seams_are_closed() {
    let out = draw_quads(&gapped_structure(), &None, &None, false, &None, &None, &mut TileCache::new());
    expect(&out, |x, y| grey(10 + 10 * (x / 3) as u8 + 20 * (y / 3) as u8));
}

#[test]
fn later_quads_are_drawn_over_earlier_ones() {
    // the quad at (0,0) has no neighbour at (2,0): it is drawn 3 wide and
    // reaches into the quad at (2,1)
    let mut map = QuadMap::new();
    map.insert(Vec2 { x: 0, y: 0 }, QuadInfo { depth: 1, color: Some(grey(10)) });
    map.insert(Vec2 { x: 2, y: 1 }, QuadInfo { depth: 1, color: Some(grey(20)) });
    let s = QuadStructure { map, sizes: vec![Vec2 { x: 4, y: 4 }, Vec2 { x: 2, y: 2 }] };
    let a = Vec2 { x: 0, y: 0 };
    let b = Vec2 { x: 2, y: 1 };
    let first = draw_quads_ordered(&s, &vec![a, b], &None, &None, false, &None, &None, &mut TileCache::new());
    let second = draw_quads_ordered(&s, &vec![b, a], &None, &None, false, &None, &None, &mut TileCache::new());
    assert_eq!(first.get_pixel(2, 1), grey(20));
    assert_eq!(second.get_pixel(2, 1), grey(10));
    assert_eq!(first.get_pixel(2, 0), grey(10));
    assert_eq!(first.get_pixel(3, 3), grey(20));
    assert_eq!(first.get_pixel(0, 3), CLEAR);
    let walked = draw_quads(&s, &None, &None, false, &None, &None, &mut TileCache::new());
    assert!(walked == first || walked == second);
    let skipped = draw_quads_ordered(
        &s,
        &vec![Vec2 { x: 1, y: 1 }, b],
        &None,
        &None,
        false,
        &None,
        &None,
        &mut TileCache::new(),
    );
    assert_eq!(skipped.get_pixel(0, 0), CLEAR);
    assert_eq!(skipped.get_pixel(2, 1), grey(20));
}

#[test]
fn overlay_is_resized_to_each_quad_size() {
    let overlay = Raster::from_pixel(7, 9, CLEAR);
    let mut cache = TileCache::new();
    let out = draw_quads(&gapped_structure(), &Some(RED), &Some(BLUE), true, &Some(overlay), &None, &mut cache);
    assert_eq!((out.width, out.height), (5, 5));
    // sizes drawn: 3 x 3, 2 x 3, 3 x 2 and 2 x 2
    assert_eq!(cache.tiles.len(), 4);
    for (w, h) in [(3, 3), (2, 3), (3, 2), (2, 2)] {
        let tile = cache.tiles.get(&Vec2 { x: w, y: h }.key()).unwrap();
        assert_eq!((tile.width, tile.height), (w, h));
        assert_eq!(tile.data.len() as u32, w * h * 4);
    }
    // a fully transparent overlay stays so whatever it is multiplied by
    expect(&out, |x, y| if x % 3 == 0 || y % 3 == 0 { RED } else { CLEAR });
}

#[test]
fn quads_of_a_subdivision_stay_inside_when_adjusted() {
    let mut img = Raster::new(37, 29);
    for y in 0..29 {
        for x in 0..37 {
            img.put_pixel(x, y, grey(((x * x + 3 * y) % 251) as u8));
        }
    }
    let s = quadtree_over_media::quad::calc_quads(&img, &Vec2 { x: 2, y: 2 }, 0, &grey(3), true);
    assert!(s.map.len() > 4);
    let bounds = s.sizes[0];
    assert_eq!(bounds, Vec2 { x: 37, y: 29 });
    let mut grown = 0;
    for pos in s.map.positions() {
        let size = s.sizes[s.map.get(&pos).unwrap().depth as usize];
        let adjusted = adjust_quad_size(&pos, &size, &s.map, &bounds);
        assert!(pos.x + adjusted.x <= bounds.x && pos.y + adjusted.y <= bounds.y);
        assert!(adjusted.x == size.x || adjusted.x == size.x + 1);
        assert!(adjusted.y == size.y || adjusted.y == size.y + 1);
        if adjusted != size {
            grown += 1;
        }
    }
    assert!(grown > 0);
}
