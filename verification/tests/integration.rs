use quadtree_over_media::args::{DrawingArgs, QuadArgs};
use quadtree_over_media::drawing::TileCache;
use quadtree_over_media::pipeline::{draw_subdivision, generate_quadtree_image, subdivide};
use quadtree_over_media::quad::{default_min_size, DEFAULT_MIN_DEPTH};
use quadtree_over_media::raster::Raster;
use quadtree_over_media::utils::Rgba;

const RED: Rgba = Rgba { r: 255, g: 0, b: 0, a: 255 };
const WHITE: Rgba = Rgba { r: 255, g: 255, b: 255, a: 255 };
const BLACK: Rgba = Rgba { r: 0, g: 0, b: 0, a: 255 };

/// 16 x 16, white, with a black square in its top-left quarter
fn square() -> Raster {
    let mut img = Raster::from_pixel(16, 16, WHITE);
    for y in 0..8 {
        for x in 0..8 {
            img.put_pixel(x, y, BLACK);
        }
    }
    img
}

fn with_grid(source: &Raster, step: u32, color: Rgba) -> Raster {
    let mut img = source.clone();
    for y in 0..source.height {
        for x in 0..source.width {
            if x % step == 0 || y % step == 0 {
                img.put_pixel(x, y, color);
            }
        }
    }
    img
}

fn run(min_depth: u8) -> Raster {
    let calc = QuadArgs { min_depth, min_quad_size: default_min_size(), threshold: None };
    let draw = DrawingArgs { color: Some(RED), background: None, no_drawover: false, fill: false };
    generate_quadtree_image(&square(), &None, &calc, &draw, &mut TileCache::new())
}

#[test]
fn simple() {
    let output = run(DEFAULT_MIN_DEPTH);

    assert_eq!(output.data.len(), 16 * 16 * 4);
    assert_eq!(output, with_grid(&square(), 4, RED));
}

#[test]
fn min_depth() {
    let output = run(0);

    assert_eq!(output.data.len(), 16 * 16 * 4);
    assert_eq!(output, with_grid(&square(), 8, RED));
}

#[test]
fn uniform_source_gets_the_outline_of_the_whole() {
    let source = Raster::from_pixel(16, 16, WHITE);
    let calc = QuadArgs { min_depth: 0, min_quad_size: default_min_size(), threshold: None };
    let draw = DrawingArgs { color: Some(RED), background: None, no_drawover: false, fill: false };
    let out = generate_quadtree_image(&source, &None, &calc, &draw, &mut TileCache::new());
    assert_eq!(out, with_grid(&source, 16, RED));
}

#[test]
fn filled_quads_on_a_new_image() {
    let calc = QuadArgs { min_depth: 0, min_quad_size: default_min_size(), threshold: None };
    let draw = DrawingArgs { color: None, background: None, no_drawover: false, fill: true };
    let out = generate_quadtree_image(&square(), &None, &calc, &draw, &mut TileCache::new());
    // four quads of 8 x 8, each in its mean colour: the picture is the source
    assert_eq!(out, square());
}

#[test]
fn no_drawover_fills_uncoloured_quads_with_the_outline_colour() {
    let calc = QuadArgs { min_depth: 0, min_quad_size: default_min_size(), threshold: None };
    let draw = DrawingArgs {
        color: Some(RED),
        background: Some(BLACK),
        no_drawover: true,
        fill: false,
    };
    let out = generate_quadtree_image(&square(), &None, &calc, &draw, &mut TileCache::new());
    assert_eq!(out, Raster::from_pixel(16, 16, RED));
}

#[test]
fn steps_give_what_the_whole_gives() {
    let calc = QuadArgs { min_depth: 0, min_quad_size: default_min_size(), threshold: None };
    let draw = DrawingArgs { color: Some(RED), background: None, no_drawover: false, fill: false };
    let structure = subdivide(&square(), &calc, &draw);
    assert_eq!(structure.map.len(), 4);
    let out = draw_subdivision(&square(), &structure, &None, &draw, &mut TileCache::new());
    assert_eq!(out, run(0));
}
