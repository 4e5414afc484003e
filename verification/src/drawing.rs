//! Drawing the quads of a subdivision: outlines, fills and tiles of a fill
//! image.
use crate::quad::spec_default_color;
use crate::raster::{byte_len, is_grid, plain, Raster};
use crate::utils::{is_walk_of, QuadInfo, QuadMap, QuadModel, QuadStructure, Rgba, Vec2};
use std::collections::HashMap;
use vstd::prelude::*;

verus! {

broadcast use vstd::std_specs::hash::group_hash_axioms;

/// The product of two channel values, scaled back to a channel value and
/// rounded down.
pub open spec fn multiplied_channel(a: u8, b: u8) -> u8 {
    ((a as int * b as int) / 255) as u8
}

/// The channel-wise product of two colours, alpha included.
pub open spec fn multiplied(a: Rgba, b: Rgba) -> Rgba {
    Rgba {
        r: multiplied_channel(a.r, b.r),
        g: multiplied_channel(a.g, b.g),
        b: multiplied_channel(a.b, b.b),
        a: multiplied_channel(a.a, b.a),
    }
}

fn multiply_channel(a: u8, b: u8) -> (r: u8)
    ensures
        r == multiplied_channel(a, b),
{
    assert(0 <= a as int * b as int <= 255 * 255) by (nonlinear_arith)
        requires
            0 <= a as int <= 255,
            0 <= b as int <= 255,
    ;
    let product: u16 = (a as u16) * (b as u16);
    (product / 255) as u8
}

/// Multiplies two colours channel by channel: each channel of the result is
/// `a * b / 255`, rounded down.
pub fn multiply_pixels(a: &Rgba, b: &Rgba) -> (r: Rgba)
    ensures
        r == multiplied(*a, *b),
{
    Rgba {
        r: multiply_channel(a.r, b.r),
        g: multiply_channel(a.g, b.g),
        b: multiply_channel(a.b, b.b),
        a: multiply_channel(a.a, b.a),
    }
}

/// There is a colour, and each of its channels lies between the channels of
/// `from` and `to`, both included.
pub open spec fn color_between(color: Option<Rgba>, from: Rgba, to: Rgba) -> bool {
    match color {
        Some(c) => {
            &&& from.r <= c.r <= to.r
            &&& from.g <= c.g <= to.g
            &&& from.b <= c.b <= to.b
            &&& from.a <= c.a <= to.a
        },
        None => false,
    }
}

/// Whether there is a colour whose channels all lie in the given ranges.
pub fn is_color_between(color: &Option<Rgba>, from: &Rgba, to: &Rgba) -> (r: bool)
    ensures
        r == color_between(*color, *from, *to),
{
    match color {
        Some(c) => c.r >= from.r && c.r <= to.r && c.g >= from.g && c.g <= to.g && c.b >= from.b
            && c.b <= to.b && c.a >= from.a && c.a <= to.a,
        None => false,
    }
}

/// The extent along one axis with which a quad is drawn: one more than its
/// own where the quad ends before the far edge of the image and no quad
/// starts right behind it.
pub open spec fn adjusted_extent(start: u32, extent: u32, bound: u32, neighbour: bool) -> u32 {
    if start + extent < bound && !neighbour {
        (extent + 1) as u32
    } else {
        extent
    }
}

/// The size with which the quad at `pos` is drawn, see [`adjusted_extent`].
/// The neighbours looked for are the quad recorded right of the quad, at the
/// height of its corner, and the one recorded below it, in the column of its
/// corner.
pub open spec fn adjusted_size(
    pos: Vec2,
    size: Vec2,
    quads: Map<Vec2, QuadInfo>,
    bounds: Vec2,
) -> Vec2 {
    Vec2 {
        x: adjusted_extent(
            pos.x,
            size.x,
            bounds.x,
            quads.contains_key(Vec2 { x: (pos.x + size.x) as u32, y: pos.y }),
        ),
        y: adjusted_extent(
            pos.y,
            size.y,
            bounds.y,
            quads.contains_key(Vec2 { x: pos.x, y: (pos.y + size.y) as u32 }),
        ),
    }
}

/// A quad that lies within the bounds still does so with its adjusted size.
pub proof fn lemma_adjusted_size_stays_inside(
    pos: Vec2,
    size: Vec2,
    quads: Map<Vec2, QuadInfo>,
    bounds: Vec2,
)
    requires
        pos.x + size.x <= bounds.x,
        pos.y + size.y <= bounds.y,
    ensures
        pos.x + adjusted_size(pos, size, quads, bounds).x <= bounds.x,
        pos.y + adjusted_size(pos, size, quads, bounds).y <= bounds.y,
        size.x <= adjusted_size(pos, size, quads, bounds).x <= size.x + 1,
        size.y <= adjusted_size(pos, size, quads, bounds).y <= size.y + 1,
{
}

/// Increases the size by 1 on each axis on which there is no quad next to
/// this one and the image goes on; this closes the one-pixel gaps that
/// halving odd sizes leaves between quads.
pub fn adjust_quad_size(pos: &Vec2, size: &Vec2, quadinf_map: &QuadMap, bounds: &Vec2) -> (r:
    Vec2)
    requires
        pos.x + size.x <= u32::MAX,
        pos.y + size.y <= u32::MAX,
    ensures
        r == adjusted_size(*pos, *size, quadinf_map@, *bounds),
{
    let x = if pos.x + size.x < bounds.x {
        match quadinf_map.get(&Vec2 { x: pos.x + size.x, y: pos.y }) {
            Some(_) => size.x,
            None => size.x + 1,
        }
    } else {
        size.x
    };
    let y = if pos.y + size.y < bounds.y {
        match quadinf_map.get(&Vec2 { x: pos.x, y: pos.y + size.y }) {
            Some(_) => size.y,
            None => size.y + 1,
        }
    } else {
        size.y
    };
    Vec2 { x, y }
}

/// Whether the pixel `(x, y)` lies in the rectangle at `pos` of the extent
/// `size`.
pub open spec fn in_rect(x: int, y: int, pos: Vec2, size: Vec2) -> bool {
    pos.x <= x < pos.x + size.x && pos.y <= y < pos.y + size.y
}

/// `img` with every pixel of the rectangle at `pos` set to `c`.
pub open spec fn with_rect(img: Seq<Seq<Rgba>>, pos: Vec2, size: Vec2, c: Rgba) -> Seq<Seq<Rgba>> {
    Seq::new(
        img.len(),
        |y: int|
            Seq::new(
                img[y].len(),
                |x: int|
                    if in_rect(x, y, pos, size) {
                        c
                    } else {
                        img[y][x]
                    },
            ),
    )
}

/// The colour of the pixel `(x, y)` after a square was drawn at `pos`: the
/// top row and the left column of the square have the border colour, the
/// rest of it the fill colour if there is one.
pub open spec fn square_pixel(
    before: Rgba,
    x: int,
    y: int,
    pos: Vec2,
    size: Vec2,
    border: Rgba,
    fill: Option<Rgba>,
) -> Rgba {
    let dx = x - pos.x;
    let dy = y - pos.y;
    if (dy == 0 && 0 <= dx < size.x) || (dx == 0 && 0 <= dy < size.y) {
        border
    } else if fill is Some && 1 <= dx < size.x && 1 <= dy < size.y {
        fill->0
    } else {
        before
    }
}

/// `img` with a square drawn at `pos`, see [`square_pixel`].
pub open spec fn with_square(
    img: Seq<Seq<Rgba>>,
    pos: Vec2,
    size: Vec2,
    border: Rgba,
    fill: Option<Rgba>,
) -> Seq<Seq<Rgba>> {
    Seq::new(
        img.len(),
        |y: int|
            Seq::new(
                img[y].len(),
                |x: int| square_pixel(img[y][x], x, y, pos, size, border, fill),
            ),
    )
}

/// `img` with `tile` laid over it, the top-left corner of `tile` at `pos`.
pub open spec fn with_tile(img: Seq<Seq<Rgba>>, tile: Seq<Seq<Rgba>>, pos: Vec2) -> Seq<
    Seq<Rgba>,
> {
    Seq::new(
        img.len(),
        |y: int|
            Seq::new(
                img[y].len(),
                |x: int|
                    if 0 <= y - pos.y < tile.len() && 0 <= x - pos.x < tile[y - pos.y].len() {
                        tile[y - pos.y][x - pos.x]
                    } else {
                        img[y][x]
                    },
            ),
    )
}

/// The rectangle at `pos` has no pixel or lies within a `w` x `h` image.
pub open spec fn rect_inside(pos: Vec2, size: Vec2, w: int, h: int) -> bool {
    size.x == 0 || size.y == 0 || (pos.x + size.x <= w && pos.y + size.y <= h)
}

/// Sets every pixel of the rectangle at `pos` to `c`.
pub fn fill_rect(img: &mut Raster, pos: &Vec2, size: &Vec2, c: &Rgba)
    requires
        old(img).wf(),
        rect_inside(*pos, *size, old(img).width as int, old(img).height as int),
    ensures
        final(img).wf(),
        final(img).width == old(img).width,
        final(img).height == old(img).height,
        final(img)@ == with_rect(old(img)@, *pos, *size, *c),
{
    let ghost start = img@;
    let ghost w = img.width as int;
    let ghost h = img.height as int;
    if size.x == 0 || size.y == 0 {
        assert(img@ =~~= with_rect(start, *pos, *size, *c));
        return ;
    }
    let mut dy: u32 = 0;
    assert(img@ =~~= with_rect(start, *pos, Vec2 { x: size.x, y: 0 }, *c));
    while dy < size.y
        invariant
            img.wf(),
            img.width == w,
            img.height == h,
            is_grid(start, w, h),
            pos.x + size.x <= w,
            pos.y + size.y <= h,
            dy <= size.y,
            img@ == with_rect(start, *pos, Vec2 { x: size.x, y: dy }, *c),
        decreases size.y - dy,
    {
        let mut dx: u32 = 0;
        let ghost row_start = img@;
        assert(img@ =~~= with_rect(
            row_start,
            Vec2 { x: pos.x, y: (pos.y + dy) as u32 },
            Vec2 { x: 0, y: 1 },
            *c,
        ));
        while dx < size.x
            invariant
                img.wf(),
                img.width == w,
                img.height == h,
                is_grid(start, w, h),
                is_grid(row_start, w, h),
                pos.x + size.x <= w,
                pos.y + size.y <= h,
                dy < size.y,
                dx <= size.x,
                img@ == with_rect(
                    row_start,
                    Vec2 { x: pos.x, y: (pos.y + dy) as u32 },
                    Vec2 { x: dx, y: 1 },
                    *c,
                ),
            decreases size.x - dx,
        {
            let ghost before = img@;
            img.put_pixel(pos.x + dx, pos.y + dy, *c);
            proof {
                assert(img@ =~~= with_rect(
                    row_start,
                    Vec2 { x: pos.x, y: (pos.y + dy) as u32 },
                    Vec2 { x: (dx + 1) as u32, y: 1 },
                    *c,
                ));
            }
            dx = dx + 1;
        }
        proof {
            assert(img@ =~~= with_rect(start, *pos, Vec2 { x: size.x, y: (dy + 1) as u32 }, *c));
        }
        dy = dy + 1;
    }
}

/// The square at `pos` can be drawn on a `w` x `h` image: its top row and
/// its left column lie within the image.
pub open spec fn square_inside(pos: Vec2, size: Vec2, w: int, h: int) -> bool {
    &&& size.x > 0 ==> pos.y < h && pos.x + size.x <= w
    &&& size.y > 0 ==> pos.x < w && pos.y + size.y <= h
}

/// Draws a square on the image: its top row and its left column in
/// `border_color`, the rest of it in `fill_color` where one is given.
pub fn draw_square(
    img: &mut Raster,
    pos: &Vec2,
    size: &Vec2,
    border_color: &Rgba,
    fill_color: &Option<Rgba>,
)
    requires
        old(img).wf(),
        square_inside(*pos, *size, old(img).width as int, old(img).height as int),
    ensures
        final(img).wf(),
        final(img).width == old(img).width,
        final(img).height == old(img).height,
        final(img)@ == with_square(old(img)@, *pos, *size, *border_color, *fill_color),
{
    let ghost start = img@;
    match fill_color {
        Some(fill) => {
            if size.x > 1 && size.y > 1 {
                fill_rect(
                    img,
                    &Vec2 { x: pos.x + 1, y: pos.y + 1 },
                    &Vec2 { x: size.x - 1, y: size.y - 1 },
                    fill,
                );
            }
        },
        None => {},
    }
    if size.x > 0 {
        fill_rect(img, pos, &Vec2 { x: size.x, y: 1 }, border_color);
    }
    if size.y > 0 {
        fill_rect(img, pos, &Vec2 { x: 1, y: size.y }, border_color);
    }
    proof {
        assert(img@ =~~= with_square(start, *pos, *size, *border_color, *fill_color));
    }
}

/// Copies `tile` onto `img`, the top-left corner of `tile` at `pos`.
pub fn blit(img: &mut Raster, tile: &Raster, pos: &Vec2)
    requires
        old(img).wf(),
        tile.wf(),
        pos.x + tile.width <= old(img).width,
        pos.y + tile.height <= old(img).height,
    ensures
        final(img).wf(),
        final(img).width == old(img).width,
        final(img).height == old(img).height,
        final(img)@ == with_tile(old(img)@, tile@, *pos),
{
    let ghost start = img@;
    let ghost w = img.width as int;
    let ghost h = img.height as int;
    let mut dy: u32 = 0;
    assert(img@ =~~= with_tile(start, tile@.take(0), *pos));
    while dy < tile.height
        invariant
            img.wf(),
            tile.wf(),
            img.width == w,
            img.height == h,
            is_grid(start, w, h),
            pos.x + tile.width <= w,
            pos.y + tile.height <= h,
            dy <= tile.height,
            img@ == with_tile(start, tile@.take(dy as int), *pos),
        decreases tile.height - dy,
    {
        let mut dx: u32 = 0;
        let ghost row_start = img@;
        assert(img@ =~~= with_tile(
            row_start,
            seq![tile@[dy as int].take(0)],
            Vec2 { x: pos.x, y: (pos.y + dy) as u32 },
        ));
        while dx < tile.width
            invariant
                img.wf(),
                tile.wf(),
                img.width == w,
                img.height == h,
                is_grid(row_start, w, h),
                pos.x + tile.width <= w,
                pos.y + tile.height <= h,
                dy < tile.height,
                dx <= tile.width,
                img@ == with_tile(
                    row_start,
                    seq![tile@[dy as int].take(dx as int)],
                    Vec2 { x: pos.x, y: (pos.y + dy) as u32 },
                ),
            decreases tile.width - dx,
        {
            let p = tile.get_pixel(dx, dy);
            img.put_pixel(pos.x + dx, pos.y + dy, p);
            proof {
                assert(img@ =~~= with_tile(
                    row_start,
                    seq![tile@[dy as int].take(dx + 1)],
                    Vec2 { x: pos.x, y: (pos.y + dy) as u32 },
                ));
            }
            dx = dx + 1;
        }
        proof {
            assert(tile@[dy as int].take(tile.width as int) =~= tile@[dy as int]);
            assert(img@ =~~= with_tile(start, tile@.take(dy + 1), *pos));
        }
        dy = dy + 1;
    }
    assert(tile@.take(tile.height as int) =~= tile@);
}

/// A pixel of a fill image on a backdrop of the colour `color`: an opaque
/// pixel stays, a fully transparent one becomes the backdrop, and any other
/// is multiplied by the backdrop, see [`multiplied`].
pub open spec fn flattened(p: Rgba, color: Rgba) -> Rgba {
    if p.a == 255 {
        p
    } else if p.a == 0 {
        color
    } else {
        multiplied(p, color)
    }
}

/// What [`recolor`] makes of one pixel.
pub open spec fn recolored(p: Rgba, color: Rgba, flatten: bool) -> Rgba {
    if flatten {
        flattened(p, color)
    } else {
        multiplied(p, color)
    }
}

/// `img` with every pixel recoloured, see [`recolored`].
pub open spec fn each_recolored(img: Seq<Seq<Rgba>>, color: Rgba, flatten: bool) -> Seq<
    Seq<Rgba>,
> {
    Seq::new(
        img.len(),
        |y: int| Seq::new(img[y].len(), |x: int| recolored(img[y][x], color, flatten)),
    )
}

/// `img` with the pixels recoloured that come, row by row, before the pixel
/// `(col, row)`.
pub open spec fn partly_recolored(
    img: Seq<Seq<Rgba>>,
    color: Rgba,
    flatten: bool,
    row: int,
    col: int,
) -> Seq<Seq<Rgba>> {
    Seq::new(
        img.len(),
        |y: int|
            Seq::new(
                img[y].len(),
                |x: int|
                    if y < row || (y == row && x < col) {
                        recolored(img[y][x], color, flatten)
                    } else {
                        img[y][x]
                    },
            ),
    )
}

/// A copy of `src` in which every pixel is multiplied by `color` or, with
/// `flatten`, put on a backdrop of that colour.
pub fn recolor(src: &Raster, color: &Rgba, flatten: bool) -> (out: Raster)
    requires
        src.wf(),
    ensures
        out.wf(),
        out.width == src.width,
        out.height == src.height,
        out@ == each_recolored(src@, *color, flatten),
{
    let mut out = src.duplicate();
    let mut y: u32 = 0;
    assert(out@ =~~= partly_recolored(src@, *color, flatten, 0, 0));
    while y < src.height
        invariant
            src.wf(),
            out.wf(),
            out.width == src.width,
            out.height == src.height,
            y <= src.height,
            out@ == partly_recolored(src@, *color, flatten, y as int, 0),
        decreases src.height - y,
    {
        let mut x: u32 = 0;
        while x < src.width
            invariant
                src.wf(),
                out.wf(),
                out.width == src.width,
                out.height == src.height,
                y < src.height,
                x <= src.width,
                out@ == partly_recolored(src@, *color, flatten, y as int, x as int),
            decreases src.width - x,
        {
            let p = src.get_pixel(x, y);
            let q = if flatten {
                if p.a == 255 {
                    p
                } else if p.a == 0 {
                    *color
                } else {
                    multiply_pixels(&p, color)
                }
            } else {
                multiply_pixels(&p, color)
            };
            out.put_pixel(x, y, q);
            proof {
                assert(out@ =~~= partly_recolored(src@, *color, flatten, y as int, x + 1));
            }
            x = x + 1;
        }
        proof {
            assert(out@ =~~= partly_recolored(src@, *color, flatten, y + 1, 0));
        }
        y = y + 1;
    }
    assert(out@ =~~= each_recolored(src@, *color, flatten));
    out
}

/// A copy of `src` with every pixel multiplied by `by`, see [`multiplied`].
pub fn multiply_image_by(src: &Raster, by: &Rgba) -> (out: Raster)
    requires
        src.wf(),
    ensures
        out.wf(),
        out.width == src.width,
        out.height == src.height,
        out@ == each_recolored(src@, *by, false),
{
    recolor(src, by, false)
}

/// A copy of `src` on a backdrop of the colour `color`, see [`flattened`].
pub fn apply_background_color(src: &Raster, color: &Rgba) -> (out: Raster)
    requires
        src.wf(),
    ensures
        out.wf(),
        out.width == src.width,
        out.height == src.height,
        out@ == each_recolored(src@, *color, true),
{
    recolor(src, color, true)
}

/// The fill image in the sizes in which it was needed so far, each under the
/// key of its size, see [`Vec2::key`].
#[derive(Clone, PartialEq, Eq, Debug)]
pub struct TileCache {
    pub tiles: HashMap<u64, Raster>,
}

/// Every image of `tiles` is well-formed and has the size that its key says.
pub open spec fn tiles_wf(tiles: Map<u64, Raster>) -> bool {
    forall|k: u64| #[trigger]
        tiles.contains_key(k) ==> tiles[k].wf() && tiles[k].spec_dims().spec_key() == k
}

/// `later` holds every image of `earlier`, unchanged.
pub open spec fn tiles_extend(later: Map<u64, Raster>, earlier: Map<u64, Raster>) -> bool {
    forall|k: u64| #[trigger]
        earlier.contains_key(k) ==> later.contains_key(k) && later[k] == earlier[k]
}

impl TileCache {
    /// See [`tiles_wf`].
    pub open spec fn wf(&self) -> bool {
        tiles_wf(self.tiles@)
    }

    /// A cache without images.
    pub fn new() -> (c: TileCache)
        ensures
            c.wf(),
            c.tiles@ == Map::<u64, Raster>::empty(),
    {
        TileCache { tiles: HashMap::new() }
    }
}

/// The largest width and height between which images are resized. Up to it
/// the filter places every sample within a pixel of where it belongs, so that
/// no sample is left without weight.
pub const MAX_RESIZE_EXTENT: u32 = 0x80_0000;

/// An image of `src_w` x `src_h` can be resized to `nw` x `nh`: no extent is
/// beyond [`MAX_RESIZE_EXTENT`], and the buffers that resizing takes can be
/// allocated.
pub open spec fn resize_fits(src_w: int, src_h: int, nw: int, nh: int) -> bool {
    &&& src_w <= MAX_RESIZE_EXTENT
    &&& src_h <= MAX_RESIZE_EXTENT
    &&& nw <= MAX_RESIZE_EXTENT
    &&& nh <= MAX_RESIZE_EXTENT
    &&& 16 * (src_w * nh) <= isize::MAX
    &&& 4 * (nw * nh) <= isize::MAX
}

/// What fits for a size fits for every smaller size.
pub proof fn lemma_resize_fits_smaller(src_w: int, src_h: int, nw: int, nh: int, w: int, h: int)
    requires
        0 <= src_w,
        0 <= nw <= w,
        0 <= nh <= h,
        resize_fits(src_w, src_h, w, h),
    ensures
        resize_fits(src_w, src_h, nw, nh),
{
    assert(src_w * nh <= src_w * h) by (nonlinear_arith)
        requires
            0 <= src_w,
            0 <= nh <= h,
    ;
    assert(nw * nh <= w * h) by (nonlinear_arith)
        requires
            0 <= nw <= w,
            0 <= nh <= h,
    ;
}

/// Whether an image of `src_w` x `src_h` can be resized to `nw` x `nh`, see
/// [`resize_fits`].
pub fn can_resize(src_w: u32, src_h: u32, nw: u32, nh: u32) -> (b: bool)
    ensures
        b == resize_fits(src_w as int, src_h as int, nw as int, nh as int),
{
    if src_w > MAX_RESIZE_EXTENT || src_h > MAX_RESIZE_EXTENT || nw > MAX_RESIZE_EXTENT || nh
        > MAX_RESIZE_EXTENT {
        return false;
    }
    proof {
        assert(0 <= src_w * nh <= 0x80_0000 * 0x80_0000) by (nonlinear_arith)
            requires
                0 <= src_w <= 0x80_0000,
                0 <= nh <= 0x80_0000,
        ;
        assert(0 <= nw * nh <= 0x80_0000 * 0x80_0000) by (nonlinear_arith)
            requires
                0 <= nw <= 0x80_0000,
                0 <= nh <= 0x80_0000,
        ;
    }
    let most: u64 = (usize::MAX / 2) as u64;
    16 * ((src_w as u64) * (nh as u64)) <= most && 4 * ((nw as u64) * (nh as u64)) <= most
}

/// `out` is what resizing `src` to `nw` x `nh` may give: an image of that
/// size. Where `src` has no pixel, it is fully transparent; where `src` has
/// that size already, it is a copy of `src`.
pub open spec fn resized_from(src: Raster, out: Raster, nw: u32, nh: u32) -> bool {
    &&& out.wf()
    &&& out.width == nw
    &&& out.height == nh
    &&& src.width == 0 || src.height == 0 ==> out@ == plain(
        nw as nat,
        nh as nat,
        Rgba { r: 0, g: 0, b: 0, a: 0 },
    )
    &&& src.width == nw && src.height == nh ==> out@ == src@
}

/// Resamples `src` to `nwidth` x `nheight` pixels.
///
/// This is `resize_exact` of the crate image on an RGBA image of 8 bits per
/// channel, with its Gaussian filter. Taken on trust: the result has the
/// size asked for; it is all zero where `src` has no pixel and a copy of
/// `src` where `src` has that size already, the two cases that the crate sets
/// apart before it samples. Nothing else is claimed of its pixels. It is not
/// called on extents beyond [`MAX_RESIZE_EXTENT`] nor on sizes whose buffers
/// cannot be allocated, where it may not return.
#[verifier::external_body]
fn resize_exact(src: &Raster, nwidth: u32, nheight: u32) -> (out: Raster)
    requires
        src.wf(),
        resize_fits(src.width as int, src.height as int, nwidth as int, nheight as int),
    ensures
        out.wf(),
        out.width == nwidth,
        out.height == nheight,
        src.width == 0 || src.height == 0 ==> out@ == plain(
            nwidth as nat,
            nheight as nat,
            Rgba { r: 0, g: 0, b: 0, a: 0 },
        ),
        src.width == nwidth && src.height == nheight ==> out@ == src@,
{
    let buf = image::RgbaImage::from_raw(src.width, src.height, src.data.clone()).unwrap();
    let resized = image::DynamicImage::ImageRgba8(buf).resize_exact(
        nwidth,
        nheight,
        image::imageops::FilterType::Gaussian,
    ).into_rgba8();
    Raster { width: resized.width(), height: resized.height(), data: resized.into_raw() }
}

/// `img` after `tile`, an image of the size `size`, was drawn at `pos`: the
/// tile, multiplied by `multiply` where that is a colour, lies over the
/// image, and over the tile the outline of a square in `border` where that is
/// a colour.
pub open spec fn with_drawn_tile(
    img: Seq<Seq<Rgba>>,
    tile: Seq<Seq<Rgba>>,
    pos: Vec2,
    size: Vec2,
    border: Option<Rgba>,
    multiply: Option<Rgba>,
) -> Seq<Seq<Rgba>> {
    let laid = with_tile(
        img,
        match multiply {
            Some(c) => each_recolored(tile, c, false),
            None => tile,
        },
        pos,
    );
    match border {
        Some(c) => with_square(laid, pos, size, c, None),
        None => laid,
    }
}

/// Draws `tile` at `pos`, see [`with_drawn_tile`].
pub fn draw_tile(
    img: &mut Raster,
    tile: &Raster,
    pos: &Vec2,
    border_color: &Option<Rgba>,
    multiply_color: &Option<Rgba>,
)
    requires
        old(img).wf(),
        tile.wf(),
        pos.x + tile.width <= old(img).width,
        pos.y + tile.height <= old(img).height,
        border_color is Some ==> square_inside(
            *pos,
            tile.spec_dims(),
            old(img).width as int,
            old(img).height as int,
        ),
    ensures
        final(img).wf(),
        final(img).width == old(img).width,
        final(img).height == old(img).height,
        final(img)@ == with_drawn_tile(
            old(img)@,
            tile@,
            *pos,
            tile.spec_dims(),
            *border_color,
            *multiply_color,
        ),
{
    match multiply_color {
        Some(c) => {
            let multiplied = multiply_image_by(tile, c);
            blit(img, &multiplied, pos);
        },
        None => {
            blit(img, tile, pos);
        },
    }
    match border_color {
        Some(c) => {
            let size = tile.dims();
            draw_square(img, pos, &size, c, &None);
        },
        None => {},
    }
}

/// Draws the fill image `img_todraw` at `pos` in the size `size`, see
/// [`with_drawn_tile`]. The image in that size is taken from `cache`; where
/// it is not there yet, it is made and put there first.
pub fn draw_image(
    img: &mut Raster,
    img_todraw: &Raster,
    pos: &Vec2,
    size: &Vec2,
    border_color: &Option<Rgba>,
    multiply_color: &Option<Rgba>,
    cache: &mut TileCache,
)
    requires
        old(img).wf(),
        img_todraw.wf(),
        old(cache).wf(),
        pos.x + size.x <= old(img).width,
        pos.y + size.y <= old(img).height,
        border_color is Some ==> square_inside(
            *pos,
            *size,
            old(img).width as int,
            old(img).height as int,
        ),
        resize_fits(
            img_todraw.width as int,
            img_todraw.height as int,
            size.x as int,
            size.y as int,
        ),
    ensures
        final(img).wf(),
        final(img).width == old(img).width,
        final(img).height == old(img).height,
        final(cache).wf(),
        final(cache).tiles@.contains_key(size.spec_key()),
        !old(cache).tiles@.contains_key(size.spec_key()) ==> resized_from(
            *img_todraw,
            final(cache).tiles@[size.spec_key()],
            size.x,
            size.y,
        ),
        old(cache).tiles@.contains_key(size.spec_key()) ==> final(cache).tiles@ == old(
            cache,
        ).tiles@,
        !old(cache).tiles@.contains_key(size.spec_key()) ==> final(cache).tiles@ == old(
            cache,
        ).tiles@.insert(size.spec_key(), final(cache).tiles@[size.spec_key()]),
        final(img)@ == with_drawn_tile(
            old(img)@,
            final(cache).tiles@[size.spec_key()]@,
            *pos,
            *size,
            *border_color,
            *multiply_color,
        ),
{
    let k = size.key();
    if !cache.tiles.contains_key(&k) {
        let resized = resize_exact(img_todraw, size.x, size.y);
        cache.tiles.insert(k, resized);
    }
    let tile = cache.tiles.get(&k).unwrap();
    proof {
        tile.spec_dims().lemma_key_injective(*size);
    }
    draw_tile(img, tile, pos, border_color, multiply_color);
}

/// The colour of the outline of a quad: the colour asked for or else the
/// colour of the quad or else the default accent colour.
pub open spec fn border_of(border: Option<Rgba>, info: QuadInfo) -> Rgba {
    match border {
        Some(c) => c,
        None => match info.color {
            Some(c) => c,
            None => spec_default_color(),
        },
    }
}

/// The colour with which a quad is filled: its own colour or, where it has
/// none, the colour of its outline, see [`border_of`].
pub open spec fn fill_of(border: Option<Rgba>, info: QuadInfo) -> Rgba {
    match info.color {
        Some(c) => c,
        None => border_of(border, info),
    }
}

/// The colour of the outline of a quad, see [`border_of`].
pub fn border_color_of(border: &Option<Rgba>, info: &QuadInfo) -> (c: Rgba)
    ensures
        c == border_of(*border, *info),
{
    match border {
        Some(c) => *c,
        None => match info.color {
            Some(c) => c,
            None => crate::quad::default_color(),
        },
    }
}

/// `img` with the outline of the quad at `pos` drawn over it, in the size
/// registered for the depth of the quad. A position without a quad changes
/// nothing.
pub open spec fn with_outline(
    img: Seq<Seq<Rgba>>,
    s: QuadModel,
    pos: Vec2,
    color: Option<Rgba>,
) -> Seq<Seq<Rgba>> {
    if s.quads.contains_key(pos) {
        with_square(
            img,
            pos,
            s.sizes[s.quads[pos].depth as int],
            border_of(color, s.quads[pos]),
            None,
        )
    } else {
        img
    }
}

/// `img` with the outlines of the quads at the positions of `order` drawn
/// over it, one after the other.
pub open spec fn with_outlines(
    img: Seq<Seq<Rgba>>,
    s: QuadModel,
    order: Seq<Vec2>,
    color: Option<Rgba>,
) -> Seq<Seq<Rgba>>
    decreases order.len(),
{
    if order.len() == 0 {
        img
    } else {
        with_outline(with_outlines(img, s, order.drop_last(), color), s, order.last(), color)
    }
}

/// Draws the outlines of the quads at the positions of `order` on `img`, one
/// after the other.
pub fn draw_outlines(
    img: &mut Raster,
    quads: &QuadStructure,
    order: &Vec<Vec2>,
    color: &Option<Rgba>,
)
    requires
        old(img).wf(),
        quads@.fits(),
        quads.sizes@[0] == old(img).spec_dims(),
    ensures
        final(img).wf(),
        final(img).width == old(img).width,
        final(img).height == old(img).height,
        final(img)@ == with_outlines(old(img)@, quads@, order@, *color),
{
    let ghost start = img@;
    let mut i: usize = 0;
    assert(order@.take(0) =~= Seq::<Vec2>::empty());
    while i < order.len()
        invariant
            img.wf(),
            img.width == old(img).width,
            img.height == old(img).height,
            quads@.fits(),
            quads.sizes@[0] == img.spec_dims(),
            i <= order@.len(),
            img@ == with_outlines(start, quads@, order@.take(i as int), *color),
        decreases order@.len() - i,
    {
        let pos = order[i];
        proof {
            assert(order@.take(i + 1).drop_last() =~= order@.take(i as int));
            assert(order@.take(i + 1).last() == pos);
        }
        match quads.map.get(&pos) {
            Some(info) => {
                assert(quads@.quads.contains_key(pos));
                assert(crate::utils::quad_fits(pos, info, quads.sizes@));
                let size = quads.sizes[info.depth as usize];
                let border = border_color_of(color, &info);
                draw_square(img, &pos, &size, &border, &None);
            },
            None => {},
        }
        i = i + 1;
    }
    assert(order@.take(order@.len() as int) =~= order@);
}

/// Creates a copy of `original` and draws the outlines of the quads on it,
/// each in the size registered for its depth: in `color` if that is given,
/// else in the colour of the quad, else in the default accent colour. The
/// quads are drawn in the order in which the map hands them out.
pub fn draw_quads_simple(original: &Raster, quads: &QuadStructure, color: &Option<Rgba>) -> (r:
    Raster)
    requires
        original.wf(),
        quads@.fits(),
        quads.sizes@[0] == original.spec_dims(),
    ensures
        r.wf(),
        r.width == original.width,
        r.height == original.height,
        exists|order: Seq<Vec2>|
            is_walk_of(order, quads.map@) && r@ == #[trigger] with_outlines(
                original@,
                quads@,
                order,
                *color,
            ),
{
    let mut copy_img = original.duplicate();
    let order = quads.map.positions();
    draw_outlines(&mut copy_img, quads, &order, color);
    copy_img
}

/// Whether a quad is drawn: always where no range is given, else where its
/// colour lies in the range, see [`color_between`].
pub open spec fn passes(info: QuadInfo, range: Option<[Rgba; 2]>) -> bool {
    match range {
        Some(r) => color_between(info.color, r@[0], r@[1]),
        None => true,
    }
}

/// The size with which the quad at `pos` is drawn, see [`adjusted_size`].
pub open spec fn draw_size(s: QuadModel, pos: Vec2) -> Vec2 {
    adjusted_size(pos, s.sizes[s.quads[pos].depth as int], s.quads, s.sizes[0])
}

/// No quad of a subdivision whose quads lie within the image leaves the image
/// when it is drawn in its adjusted size.
pub proof fn lemma_drawn_quad_stays_inside(s: QuadModel, pos: Vec2)
    requires
        s.fits(),
        s.quads.contains_key(pos),
    ensures
        pos.x + draw_size(s, pos).x <= s.sizes[0].x,
        pos.y + draw_size(s, pos).y <= s.sizes[0].y,
{
    assert(crate::utils::quad_fits(pos, s.quads[pos], s.sizes));
    lemma_adjusted_size_stays_inside(
        pos,
        s.sizes[s.quads[pos].depth as int],
        s.quads,
        s.sizes[0],
    );
}

/// `img` after the quad at `pos` was drawn on it.
///
/// A position without a quad and a quad that does not pass the range change
/// nothing. Else the quad is drawn in its adjusted size: with a fill image
/// (`overlay`) as the tile of that size from `tiles`, multiplied by the
/// colour of the quad if `multiply` is set, under an outline in `border` if
/// that is a colour; without a fill image as a square filled with the colour
/// that [`fill_of`] gives, with an outline in the colour that [`border_of`]
/// gives.
pub open spec fn with_quad(
    img: Seq<Seq<Rgba>>,
    s: QuadModel,
    pos: Vec2,
    border: Option<Rgba>,
    multiply: bool,
    overlay: bool,
    range: Option<[Rgba; 2]>,
    tiles: Map<u64, Raster>,
) -> Seq<Seq<Rgba>> {
    if !s.quads.contains_key(pos) || !passes(s.quads[pos], range) {
        img
    } else if overlay {
        with_drawn_tile(
            img,
            tiles[draw_size(s, pos).spec_key()]@,
            pos,
            draw_size(s, pos),
            border,
            if multiply {
                s.quads[pos].color
            } else {
                None
            },
        )
    } else {
        with_square(
            img,
            pos,
            draw_size(s, pos),
            border_of(border, s.quads[pos]),
            Some(fill_of(border, s.quads[pos])),
        )
    }
}

/// `img` after the quads at the positions of `order` were drawn on it, one
/// after the other, see [`with_quad`].
pub open spec fn with_quads(
    img: Seq<Seq<Rgba>>,
    s: QuadModel,
    order: Seq<Vec2>,
    border: Option<Rgba>,
    multiply: bool,
    overlay: bool,
    range: Option<[Rgba; 2]>,
    tiles: Map<u64, Raster>,
) -> Seq<Seq<Rgba>>
    decreases order.len(),
{
    if order.len() == 0 {
        img
    } else {
        with_quad(
            with_quads(img, s, order.drop_last(), border, multiply, overlay, range, tiles),
            s,
            order.last(),
            border,
            multiply,
            overlay,
            range,
            tiles,
        )
    }
}

/// The canvas on which quads are drawn: in the background colour if there is
/// one, else fully transparent.
pub open spec fn canvas(dims: Vec2, background: Option<Rgba>) -> Seq<Seq<Rgba>> {
    plain(
        dims.x as nat,
        dims.y as nat,
        match background {
            Some(c) => c,
            None => Rgba { r: 0, g: 0, b: 0, a: 0 },
        },
    )
}

/// With a fill image, `tiles` holds the tile of every quad of `order` that is
/// drawn.
pub open spec fn tiles_cover(
    s: QuadModel,
    order: Seq<Vec2>,
    overlay: bool,
    range: Option<[Rgba; 2]>,
    tiles: Map<u64, Raster>,
) -> bool {
    overlay ==> forall|k: int|
        0 <= k < order.len() && s.quads.contains_key(#[trigger] order[k]) && passes(
            s.quads[order[k]],
            range,
        ) ==> tiles.contains_key(draw_size(s, order[k]).spec_key())
}

/// The quad at `pos` is drawn, and with a fill image it takes the tile under
/// the key `k`.
pub open spec fn takes_tile(s: QuadModel, pos: Vec2, range: Option<[Rgba; 2]>, k: u64) -> bool {
    s.quads.contains_key(pos) && passes(s.quads[pos], range) && draw_size(s, pos).spec_key() == k
}

/// `later` holds no tiles but those of `earlier` and, with a fill image, those
/// that the quads of `order` take.
pub open spec fn tiles_only_for(
    s: QuadModel,
    order: Seq<Vec2>,
    overlay: bool,
    range: Option<[Rgba; 2]>,
    earlier: Map<u64, Raster>,
    later: Map<u64, Raster>,
) -> bool {
    forall|k: u64| #[trigger]
        later.contains_key(k) ==> earlier.contains_key(k) || (overlay && exists|i: int|
            0 <= i < order.len() && takes_tile(s, #[trigger] order[i], range, k))
}

/// Every tile of `later` that `earlier` does not hold was made from the fill
/// image `src`, in the size that its key says, see [`resized_from`].
pub open spec fn tiles_made_from(
    src: Option<Raster>,
    earlier: Map<u64, Raster>,
    later: Map<u64, Raster>,
) -> bool {
    forall|k: u64| #[trigger]
        later.contains_key(k) && !earlier.contains_key(k) ==> src is Some && resized_from(
            src->0,
            later[k],
            Vec2::of_key(k).x,
            Vec2::of_key(k).y,
        )
}

/// What is drawn does not change when tiles are added to those that it was
/// drawn from.
proof fn lemma_with_quads_stable(
    img: Seq<Seq<Rgba>>,
    s: QuadModel,
    order: Seq<Vec2>,
    border: Option<Rgba>,
    multiply: bool,
    overlay: bool,
    range: Option<[Rgba; 2]>,
    earlier: Map<u64, Raster>,
    later: Map<u64, Raster>,
)
    requires
        tiles_cover(s, order, overlay, range, earlier),
        tiles_extend(later, earlier),
    ensures
        with_quads(img, s, order, border, multiply, overlay, range, later) == with_quads(
            img,
            s,
            order,
            border,
            multiply,
            overlay,
            range,
            earlier,
        ),
    decreases order.len(),
{
    if order.len() > 0 {
        let rest = order.drop_last();
        assert(tiles_cover(s, rest, overlay, range, earlier)) by {
            if overlay {
                assert forall|k: int|
                    0 <= k < rest.len() && s.quads.contains_key(#[trigger] rest[k]) && passes(
                        s.quads[rest[k]],
                        range,
                    ) implies earlier.contains_key(draw_size(s, rest[k]).spec_key()) by {
                    assert(rest[k] == order[k]);
                }
            }
        }
        lemma_with_quads_stable(img, s, rest, border, multiply, overlay, range, earlier, later);
        let pos = order.last();
        assert(pos == order[order.len() - 1]);
        if overlay && s.quads.contains_key(pos) && passes(s.quads[pos], range) {
            assert(earlier.contains_key(draw_size(s, pos).spec_key()));
        }
    }
}

/// Draws the quads at the positions of `order`, one after the other, on a
/// new image of the size of the subdivision, see [`draw_quads`].
pub fn draw_quads_ordered(
    structure: &QuadStructure,
    order: &Vec<Vec2>,
    border_color: &Option<Rgba>,
    background_color: &Option<Rgba>,
    multiply: bool,
    quad_img: &Option<Raster>,
    draw_range: &Option<[Rgba; 2]>,
    cache: &mut TileCache,
) -> (img_out: Raster)
    requires
        structure@.fits(),
        byte_len(structure.sizes@[0].x as int, structure.sizes@[0].y as int) <= usize::MAX,
        old(cache).wf(),
        quad_img matches Some(q) ==> q.wf() && resize_fits(
            q.width as int,
            q.height as int,
            structure.sizes@[0].x as int,
            structure.sizes@[0].y as int,
        ),
    ensures
        img_out.wf(),
        img_out.spec_dims() == structure.sizes@[0],
        final(cache).wf(),
        tiles_extend(final(cache).tiles@, old(cache).tiles@),
        tiles_made_from(*quad_img, old(cache).tiles@, final(cache).tiles@),
        tiles_cover(structure@, order@, quad_img is Some, *draw_range, final(cache).tiles@),
        tiles_only_for(
            structure@,
            order@,
            quad_img is Some,
            *draw_range,
            old(cache).tiles@,
            final(cache).tiles@,
        ),
        img_out@ == with_quads(
            canvas(structure.sizes@[0], *background_color),
            structure@,
            order@,
            *border_color,
            multiply,
            quad_img is Some,
            *draw_range,
            final(cache).tiles@,
        ),
{
    let img_size = structure.sizes[0];
    let mut img_out = match background_color {
        Some(bgrc) => Raster::from_pixel(img_size.x, img_size.y, *bgrc),
        None => Raster::new(img_size.x, img_size.y),
    };
    let ghost start = img_out@;
    let ghost s = structure@;
    let ghost overlay = quad_img is Some;
    let mut i: usize = 0;
    assert(order@.take(0) =~= Seq::<Vec2>::empty());
    while i < order.len()
        invariant
            s == structure@,
            s.fits(),
            overlay == (quad_img is Some),
            img_size == s.sizes[0],
            start == canvas(s.sizes[0], *background_color),
            img_out.wf(),
            img_out.spec_dims() == img_size,
            cache.wf(),
            tiles_extend(cache.tiles@, old(cache).tiles@),
            quad_img matches Some(q) ==> q.wf() && resize_fits(
                q.width as int,
                q.height as int,
                img_size.x as int,
                img_size.y as int,
            ),
            tiles_made_from(*quad_img, old(cache).tiles@, cache.tiles@),
            i <= order@.len(),
            tiles_cover(s, order@.take(i as int), overlay, *draw_range, cache.tiles@),
            tiles_only_for(
                s,
                order@.take(i as int),
                overlay,
                *draw_range,
                old(cache).tiles@,
                cache.tiles@,
            ),
            img_out@ == with_quads(
                start,
                s,
                order@.take(i as int),
                *border_color,
                multiply,
                overlay,
                *draw_range,
                cache.tiles@,
            ),
        decreases order@.len() - i,
    {
        let pos = order[i];
        let ghost done = order@.take(i as int);
        let ghost tiles_before = cache.tiles@;
        proof {
            assert(order@.take(i + 1).drop_last() =~= done);
            assert(order@.take(i + 1).last() == pos);
        }
        match structure.map.get(&pos) {
            Some(info) => {
                assert(s.quads.contains_key(pos));
                assert(crate::utils::quad_fits(pos, info, s.sizes));
                let drawn = match draw_range {
                    Some(range) => is_color_between(&info.color, &range[0], &range[1]),
                    None => true,
                };
                if drawn {
                    let size = structure.sizes[info.depth as usize];
                    let size_adj = adjust_quad_size(&pos, &size, &structure.map, &img_size);
                    proof {
                        lemma_adjusted_size_stays_inside(pos, size, s.quads, img_size);
                    }
                    match quad_img {
                        Some(qimg) => {
                            proof {
                                lemma_resize_fits_smaller(
                                    qimg.width as int,
                                    qimg.height as int,
                                    size_adj.x as int,
                                    size_adj.y as int,
                                    img_size.x as int,
                                    img_size.y as int,
                                );
                            }
                            let multiply_color = if multiply {
                                info.color
                            } else {
                                None
                            };
                            draw_image(
                                &mut img_out,
                                qimg,
                                &pos,
                                &size_adj,
                                border_color,
                                &multiply_color,
                                cache,
                            );
                        },
                        None => {
                            let border = border_color_of(border_color, &info);
                            let fill = match info.color {
                                Some(c) => c,
                                None => border,
                            };
                            draw_square(&mut img_out, &pos, &size_adj, &border, &Some(fill));
                        },
                    }
                }
            },
            None => {},
        }
        proof {
            assert(tiles_extend(cache.tiles@, tiles_before));
            assert forall|k: u64| #[trigger]
                cache.tiles@.contains_key(k) && !old(cache).tiles@.contains_key(
                    k,
                ) implies *quad_img is Some && resized_from(
                (*quad_img)->0,
                cache.tiles@[k],
                Vec2::of_key(k).x,
                Vec2::of_key(k).y,
            ) by {
                if !tiles_before.contains_key(k) {
                    Vec2::lemma_key_onto(k);
                    Vec2::of_key(k).lemma_key_injective(draw_size(s, pos));
                }
            }
            lemma_with_quads_stable(
                start,
                s,
                done,
                *border_color,
                multiply,
                overlay,
                *draw_range,
                tiles_before,
                cache.tiles@,
            );
            let next = order@.take(i + 1);
            if overlay {
                assert forall|k: int|
                    0 <= k < next.len() && s.quads.contains_key(#[trigger] next[k]) && passes(
                        s.quads[next[k]],
                        *draw_range,
                    ) implies cache.tiles@.contains_key(draw_size(s, next[k]).spec_key()) by {
                    if k < i {
                        assert(done[k] == next[k]);
                        assert(tiles_before.contains_key(draw_size(s, done[k]).spec_key()));
                    }
                }
            }
            assert forall|k: u64| #[trigger] cache.tiles@.contains_key(k) implies old(
                cache,
            ).tiles@.contains_key(k) || (overlay && exists|j: int|
                0 <= j < next.len() && takes_tile(s, #[trigger] next[j], *draw_range, k)) by {
                if tiles_before.contains_key(k) {
                    if !old(cache).tiles@.contains_key(k) {
                        let j = choose|j: int|
                            0 <= j < done.len() && takes_tile(
                                s,
                                #[trigger] done[j],
                                *draw_range,
                                k,
                            );
                        assert(next[j] == done[j]);
                        assert(takes_tile(s, next[j], *draw_range, k));
                    }
                } else {
                    assert(next[i as int] == pos);
                    assert(overlay && takes_tile(s, next[i as int], *draw_range, k));
                }
            }
        }
        i = i + 1;
    }
    assert(order@.take(order@.len() as int) =~= order@);
    img_out
}

/// Draws the quads of `structure` on a new image of its size.
///
/// The image starts in `background_color`, or fully transparent where none is
/// given. Only quads whose colour lies in `draw_range` are drawn, where a
/// range is given. A quad is drawn in its adjusted size, see
/// [`adjusted_size`]: with a fill image `quad_img` as that image in the size
/// of the quad, multiplied by the colour of the quad if `multiply` is set,
/// under an outline if `border_color` is given; without a fill image as a
/// square filled with the colour of the quad, or with the colour of its
/// outline where it has none, under an outline, see [`with_quad`]. The quads are drawn in the order in which the map hands
/// them out. `cache` holds the fill image in the sizes already needed and gains
/// those that this drawing needs.
pub fn draw_quads(
    structure: &QuadStructure,
    border_color: &Option<Rgba>,
    background_color: &Option<Rgba>,
    multiply: bool,
    quad_img: &Option<Raster>,
    draw_range: &Option<[Rgba; 2]>,
    cache: &mut TileCache,
) -> (img_out: Raster)
    requires
        structure@.fits(),
        byte_len(structure.sizes@[0].x as int, structure.sizes@[0].y as int) <= usize::MAX,
        old(cache).wf(),
        quad_img matches Some(q) ==> q.wf() && resize_fits(
            q.width as int,
            q.height as int,
            structure.sizes@[0].x as int,
            structure.sizes@[0].y as int,
        ),
    ensures
        img_out.wf(),
        img_out.spec_dims() == structure.sizes@[0],
        final(cache).wf(),
        tiles_extend(final(cache).tiles@, old(cache).tiles@),
        tiles_made_from(*quad_img, old(cache).tiles@, final(cache).tiles@),
        exists|order: Seq<Vec2>|
            is_walk_of(order, structure.map@) && tiles_cover(
                structure@,
                order,
                quad_img is Some,
                *draw_range,
                final(cache).tiles@,
            ) && tiles_only_for(
                structure@,
                order,
                quad_img is Some,
                *draw_range,
                old(cache).tiles@,
                final(cache).tiles@,
            ) && img_out@ == #[trigger] with_quads(
                canvas(structure.sizes@[0], *background_color),
                structure@,
                order,
                *border_color,
                multiply,
                quad_img is Some,
                *draw_range,
                final(cache).tiles@,
            ),
{
    let order = structure.map.positions();
    draw_quads_ordered(
        structure,
        &order,
        border_color,
        background_color,
        multiply,
        quad_img,
        draw_range,
        cache,
    )
}

} // verus!
