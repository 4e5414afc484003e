//! From an image to the picture of its subdivision.
use crate::args::{DrawingArgs, QuadArgs};
use crate::drawing::{
    canvas, draw_quads, draw_quads_simple, resize_fits, tiles_cover, tiles_extend,
    tiles_made_from, tiles_only_for, with_outlines, with_quads, TileCache,
};
use crate::quad::{calc_quads, default_treshold, spec_default_treshold, subdivision, SplitRule};
use crate::raster::Raster;
use crate::utils::{is_walk_of, QuadModel, QuadStructure, Rgba, Vec2};
use vstd::prelude::*;

verus! {

/// The rule by which `calc` and `draw` have the image split: the threshold
/// of `calc`, or the default where it has none, and colours are kept where
/// quads are filled.
pub open spec fn rule_of(calc: QuadArgs, draw: DrawingArgs) -> SplitRule {
    SplitRule {
        min_quad_size: calc.min_quad_size,
        min_depth: calc.min_depth,
        treshold: match calc.threshold {
            Some(t) => t,
            None => spec_default_treshold(),
        },
        keep_color: draw.fill,
    }
}

/// Whether the picture is drawn on an image of its own, not on a copy of the
/// source: where that is asked for, where quads are filled, and where there
/// is a fill image.
pub open spec fn draws_anew(draw: DrawingArgs, has_fill_image: bool) -> bool {
    draw.no_drawover || draw.fill || has_fill_image
}

/// Whether the picture is drawn on an image of its own, see [`draws_anew`].
pub fn draws_on_new_image(draw: &DrawingArgs, has_fill_image: bool) -> (b: bool)
    ensures
        b == draws_anew(*draw, has_fill_image),
{
    draw.no_drawover || draw.fill || has_fill_image
}

/// `img_out` is a picture of the subdivision `s` of `source`.
///
/// Where the picture is drawn anew, see [`draws_anew`], the quads are drawn
/// in some order on an image of the size of the source, with the fill image,
/// if there is one, multiplied by the colours of the quads where quads are to
/// be filled, and the cache has gained the tiles that this took. Else the
/// outlines of the quads are drawn in some order on a copy of the source, and
/// the cache is as it was.
pub open spec fn is_picture(
    img_out: Seq<Seq<Rgba>>,
    source: Raster,
    s: QuadModel,
    img_fill_with: Option<Raster>,
    draw: DrawingArgs,
    tiles_before: Map<u64, Raster>,
    tiles_after: Map<u64, Raster>,
) -> bool {
    if draws_anew(draw, img_fill_with is Some) {
        exists|order: Seq<Vec2>|
            is_walk_of(order, s.quads) && tiles_cover(
                s,
                order,
                img_fill_with is Some,
                None,
                tiles_after,
            ) && tiles_only_for(s, order, img_fill_with is Some, None, tiles_before, tiles_after)
                && img_out == #[trigger] with_quads(
                canvas(source.spec_dims(), draw.background),
                s,
                order,
                draw.color,
                draw.fill,
                img_fill_with is Some,
                None,
                tiles_after,
            )
    } else {
        tiles_after == tiles_before && exists|order: Seq<Vec2>|
            is_walk_of(order, s.quads) && img_out == #[trigger] with_outlines(
                source@,
                s,
                order,
                draw.color,
            )
    }
}

/// Subdivides `source` as `calc` says, with colours where `draw` has the
/// quads filled.
pub fn subdivide(source: &Raster, calc: &QuadArgs, draw: &DrawingArgs) -> (structure:
    QuadStructure)
    requires
        source.wf(),
        calc.min_quad_size.x >= 1,
        calc.min_quad_size.y >= 1,
    ensures
        structure@ == subdivision(source@, source.spec_dims(), rule_of(*calc, *draw)),
        structure.sizes@[0] == source.spec_dims(),
        structure@.halves(),
        structure@.fits(),
        structure@.sizes_have_pixels(),
{
    let treshold = match calc.threshold {
        Some(t) => t,
        None => default_treshold(),
    };
    calc_quads(source, &calc.min_quad_size, calc.min_depth, &treshold, draw.fill)
}

/// Draws the subdivision `structure` of `source` as `draw` says, see
/// [`is_picture`].
pub fn draw_subdivision(
    source: &Raster,
    structure: &QuadStructure,
    img_fill_with: &Option<Raster>,
    draw: &DrawingArgs,
    cache: &mut TileCache,
) -> (img_out: Raster)
    requires
        source.wf(),
        structure@.fits(),
        structure.sizes@[0] == source.spec_dims(),
        old(cache).wf(),
        img_fill_with matches Some(q) ==> q.wf() && resize_fits(
            q.width as int,
            q.height as int,
            source.width as int,
            source.height as int,
        ),
    ensures
        img_out.wf(),
        img_out.width == source.width,
        img_out.height == source.height,
        final(cache).wf(),
        tiles_extend(final(cache).tiles@, old(cache).tiles@),
        tiles_made_from(*img_fill_with, old(cache).tiles@, final(cache).tiles@),
        is_picture(
            img_out@,
            *source,
            structure@,
            *img_fill_with,
            *draw,
            old(cache).tiles@,
            final(cache).tiles@,
        ),
{
    let len: usize = source.data.len();
    let ghost s = structure@;
    assert(structure.map@ == s.quads);
    if draws_on_new_image(draw, img_fill_with.is_some()) {
        let img_out = draw_quads(
            structure,
            &draw.color,
            &draw.background,
            draw.fill,
            img_fill_with,
            &None,
            cache,
        );
        proof {
            let order = choose|order: Seq<Vec2>|
                is_walk_of(order, structure.map@) && tiles_cover(
                    structure@,
                    order,
                    img_fill_with is Some,
                    None,
                    cache.tiles@,
                ) && tiles_only_for(
                    structure@,
                    order,
                    img_fill_with is Some,
                    None,
                    old(cache).tiles@,
                    cache.tiles@,
                ) && img_out@ == #[trigger] with_quads(
                    canvas(structure.sizes@[0], draw.background),
                    structure@,
                    order,
                    draw.color,
                    draw.fill,
                    img_fill_with is Some,
                    None,
                    cache.tiles@,
                );
            assert(is_walk_of(order, s.quads) && tiles_cover(
                s,
                order,
                img_fill_with is Some,
                None,
                cache.tiles@,
            ) && tiles_only_for(
                s,
                order,
                img_fill_with is Some,
                None,
                old(cache).tiles@,
                cache.tiles@,
            ) && img_out@ == with_quads(
                canvas(source.spec_dims(), draw.background),
                s,
                order,
                draw.color,
                draw.fill,
                img_fill_with is Some,
                None,
                cache.tiles@,
            ));
        }
        img_out
    } else {
        let img_out = draw_quads_simple(source, structure, &draw.color);
        proof {
            let order = choose|order: Seq<Vec2>|
                is_walk_of(order, structure.map@) && img_out@ == #[trigger] with_outlines(
                    source@,
                    structure@,
                    order,
                    draw.color,
                );
            assert(is_walk_of(order, s.quads) && img_out@ == with_outlines(
                source@,
                s,
                order,
                draw.color,
            ));
        }
        img_out
    }
}

/// Subdivides `source` as `calc` says and draws the subdivision as `draw`
/// says, see [`subdivide`] and [`draw_subdivision`].
pub fn generate_quadtree_image(
    source: &Raster,
    img_fill_with: &Option<Raster>,
    calc: &QuadArgs,
    draw: &DrawingArgs,
    cache: &mut TileCache,
) -> (img_out: Raster)
    requires
        source.wf(),
        calc.min_quad_size.x >= 1,
        calc.min_quad_size.y >= 1,
        old(cache).wf(),
        img_fill_with matches Some(q) ==> q.wf() && resize_fits(
            q.width as int,
            q.height as int,
            source.width as int,
            source.height as int,
        ),
    ensures
        img_out.wf(),
        img_out.width == source.width,
        img_out.height == source.height,
        final(cache).wf(),
        tiles_extend(final(cache).tiles@, old(cache).tiles@),
        tiles_made_from(*img_fill_with, old(cache).tiles@, final(cache).tiles@),
        is_picture(
            img_out@,
            *source,
            subdivision(source@, source.spec_dims(), rule_of(*calc, *draw)),
            *img_fill_with,
            *draw,
            old(cache).tiles@,
            final(cache).tiles@,
        ),
{
    let structure = subdivide(source, calc, draw);
    draw_subdivision(source, &structure, img_fill_with, draw, cache)
}

} // verus!
