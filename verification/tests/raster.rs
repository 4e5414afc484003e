use quadtree_over_media::raster::Raster;
use quadtree_over_media::utils::{Rgba, Vec2};

const CLEAR: Rgba = Rgba { r: 0, g: 0, b: 0, a: 0 };

#[test]
fn new_raster_is_transparent() {
    let img = Raster::new(3, 2);
    assert_eq!((img.width, img.height), (3, 2));
    assert_eq!(img.data, vec![0u8; 24]);
    assert_eq!(img.dims(), Vec2 { x: 3, y: 2 });
    assert_eq!(img.get_pixel(2, 1), CLEAR);
}

#[test]
fn empty_rasters_hold_no_bytes() {
    assert!(Raster::new(0, 5).data.is_empty());
    assert!(Raster::from_pixel(5, 0, Rgba::new(1, 2, 3, 4)).data.is_empty());
}

#[test]
fn from_pixel_repeats_the_colour() {
    let img = Raster::from_pixel(2, 2, Rgba::new(1, 2, 3, 4));
    assert_eq!(img.data, vec![1, 2, 3, 4, 1, 2, 3, 4, 1, 2, 3, 4, 1, 2, 3, 4]);
}

#[test]
fn pixels_lie_row_by_row() {
    let mut img = Raster::new(3, 2);
    img.put_pixel(1, 0, Rgba::new(10, 11, 12, 13));
    img.put_pixel(2, 1, Rgba::new(20, 21, 22, 23));
    let mut expected = vec![0u8; 24];
    expected[4..8].copy_from_slice(&[10, 11, 12, 13]);
    expected[20..24].copy_from_slice(&[20, 21, 22, 23]);
    assert_eq!(img.data, expected);
    assert_eq!(img.get_pixel(1, 0), Rgba::new(10, 11, 12, 13));
    assert_eq!(img.get_pixel(2, 1), Rgba::new(20, 21, 22, 23));
    assert_eq!(img.get_pixel(0, 1), CLEAR);
}

#[test]
fn from_raw_wants_four_bytes_for_each_pixel() {
    assert!(Raster::from_raw(2, 3, vec![7; 24]).is_some());
    assert!(Raster::from_raw(2, 3, vec![7; 23]).is_none());
    assert!(Raster::from_raw(2, 3, vec![7; 25]).is_none());
    assert!(Raster::from_raw(0, 3, Vec::new()).is_some());
    assert!(Raster::from_raw(u32::MAX, u32::MAX, vec![7; 4]).is_none());
    let img = Raster::from_raw(1, 2, vec![1, 2, 3, 4, 5, 6, 7, 8]).unwrap();
    assert_eq!(img.get_pixel(0, 1), Rgba::new(5, 6, 7, 8));
}

#[test]
fn duplicate_is_equal_and_apart() {
    let mut img = Raster::from_pixel(2, 2, Rgba::new(1, 2, 3, 4));
    let copy = img.duplicate();
    assert_eq!(copy, img);
    img.put_pixel(0, 0, CLEAR);
    assert_eq!(copy.get_pixel(0, 0), Rgba::new(1, 2, 3, 4));
}
