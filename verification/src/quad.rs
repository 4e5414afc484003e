//! The subdivision of an image into quads whose four quarters have about the
//! same mean colour.
use crate::raster::Raster;
use crate::utils::{quad_fits, QuadInfo, QuadMap, QuadModel, QuadStructure, Rgba, Vec2};
use rayon::prelude::{IntoParallelRefIterator, ParallelIterator};
use vstd::arithmetic::power2::{lemma2_to64, lemma2_to64_rest, lemma_pow2_unfold, pow2};
use vstd::prelude::*;

verus! {

/// The number of levels that are split whatever the colours, unless asked
/// otherwise.
pub const DEFAULT_MIN_DEPTH: u8 = 4;

/// The accent colour of outlines where no other colour is known: deep pink.
pub open spec fn spec_default_color() -> Rgba {
    Rgba { r: 255, g: 20, b: 147, a: 255 }
}

/// The accent colour of outlines where no other colour is known: deep pink.
#[verifier::when_used_as_spec(spec_default_color)]
pub fn default_color() -> (c: Rgba)
    ensures
        c == spec_default_color(),
{
    Rgba { r: 255, g: 20, b: 147, a: 255 }
}

/// The spread per channel up to which four quarters count as alike, unless
/// asked otherwise.
pub open spec fn spec_default_treshold() -> Rgba {
    Rgba { r: 8, g: 8, b: 8, a: 8 }
}

/// The spread per channel up to which four quarters count as alike, unless
/// asked otherwise.
#[verifier::when_used_as_spec(spec_default_treshold)]
pub fn default_treshold() -> (c: Rgba)
    ensures
        c == spec_default_treshold(),
{
    Rgba { r: 8, g: 8, b: 8, a: 8 }
}

/// The smallest quad size that may be asked for.
pub open spec fn spec_default_min_size() -> Vec2 {
    Vec2 { x: 4, y: 4 }
}

/// The smallest quad size that may be asked for.
#[verifier::when_used_as_spec(spec_default_min_size)]
pub fn default_min_size() -> (v: Vec2)
    ensures
        v == spec_default_min_size(),
{
    Vec2 { x: 4, y: 4 }
}

/// Channel `k` of a colour: 0 red, 1 green, 2 blue, anything else alpha.
pub open spec fn channel(c: Rgba, k: int) -> int {
    if k == 0 {
        c.r as int
    } else if k == 1 {
        c.g as int
    } else if k == 2 {
        c.b as int
    } else {
        c.a as int
    }
}

/// The sum of channel `k` over the `n` pixels of `row` from column `x0` on.
pub open spec fn row_sum(row: Seq<Rgba>, x0: int, n: int, k: int) -> int
    decreases n,
{
    if n <= 0 {
        0
    } else {
        row_sum(row, x0, n - 1, k) + channel(row[x0 + n - 1], k)
    }
}

/// The sum of channel `k` over the pixels of the `w` x `h` rectangle of `img`
/// whose top-left corner is `(x0, y0)`.
pub open spec fn region_sum(img: Seq<Seq<Rgba>>, x0: int, y0: int, w: int, h: int, k: int) -> int
    decreases h,
{
    if h <= 0 {
        0
    } else {
        region_sum(img, x0, y0, w, h - 1, k) + row_sum(img[y0 + h - 1], x0, w, k)
    }
}

/// The mean of channel `k` over a rectangle, rounded down.
pub open spec fn channel_mean(img: Seq<Seq<Rgba>>, pos: Vec2, size: Vec2, k: int) -> int {
    region_sum(img, pos.x as int, pos.y as int, size.x as int, size.y as int, k) / (size.x
        * size.y)
}

/// The mean colour of the rectangle of `img` at `pos` with the extent `size`:
/// each channel is the sum over the rectangle divided by the number of its
/// pixels, rounded down.
pub open spec fn average(img: Seq<Seq<Rgba>>, pos: Vec2, size: Vec2) -> Rgba {
    Rgba {
        r: channel_mean(img, pos, size, 0) as u8,
        g: channel_mean(img, pos, size, 1) as u8,
        b: channel_mean(img, pos, size, 2) as u8,
        a: channel_mean(img, pos, size, 3) as u8,
    }
}

/// A row sum lies between 0 and 255 for each pixel.
pub proof fn lemma_row_sum_bound(row: Seq<Rgba>, x0: int, n: int, k: int)
    requires
        n >= 0,
    ensures
        0 <= row_sum(row, x0, n, k) <= 255 * n,
    decreases n,
{
    if n > 0 {
        lemma_row_sum_bound(row, x0, n - 1, k);
    }
}

/// A region sum lies between 0 and 255 for each pixel.
pub proof fn lemma_region_sum_bound(img: Seq<Seq<Rgba>>, x0: int, y0: int, w: int, h: int, k: int)
    requires
        w >= 0,
        h >= 0,
    ensures
        0 <= region_sum(img, x0, y0, w, h, k) <= 255 * (w * h),
    decreases h,
{
    if h > 0 {
        lemma_region_sum_bound(img, x0, y0, w, h - 1, k);
        lemma_row_sum_bound(img[y0 + h - 1], x0, w, k);
        assert(w * h == w * (h - 1) + w) by (nonlinear_arith);
    } else {
        assert(w * h == 0) by (nonlinear_arith)
            requires
                h == 0,
        ;
    }
}

/// The mean of a channel over a rectangle with pixels is a channel value.
pub proof fn lemma_channel_mean_bound(img: Seq<Seq<Rgba>>, pos: Vec2, size: Vec2, k: int)
    requires
        size.x > 0,
        size.y > 0,
    ensures
        0 <= channel_mean(img, pos, size, k) <= 255,
{
    let s = region_sum(img, pos.x as int, pos.y as int, size.x as int, size.y as int, k);
    let n = size.x * size.y;
    lemma_region_sum_bound(img, pos.x as int, pos.y as int, size.x as int, size.y as int, k);
    assert(n > 0) by (nonlinear_arith)
        requires
            n == size.x * size.y,
            size.x > 0,
            size.y > 0,
    ;
    assert(0 <= s / n <= 255) by (nonlinear_arith)
        requires
            0 <= s <= 255 * n,
            n > 0,
    ;
}

/// The sum over a run of pixels that all have one colour.
pub proof fn lemma_row_sum_uniform(row: Seq<Rgba>, x0: int, n: int, k: int, c: Rgba)
    requires
        n >= 0,
        forall|x: int| x0 <= x < x0 + n ==> #[trigger] row[x] == c,
    ensures
        row_sum(row, x0, n, k) == channel(c, k) * n,
    decreases n,
{
    if n > 0 {
        lemma_row_sum_uniform(row, x0, n - 1, k, c);
        assert(row[x0 + n - 1] == c);
        assert(channel(c, k) * n == channel(c, k) * (n - 1) + channel(c, k))
            by (nonlinear_arith);
    } else {
        assert(channel(c, k) * n == 0) by (nonlinear_arith)
            requires
                n == 0,
        ;
    }
}

/// The sum over a rectangle of pixels that all have one colour.
pub proof fn lemma_region_sum_uniform(
    img: Seq<Seq<Rgba>>,
    x0: int,
    y0: int,
    w: int,
    h: int,
    k: int,
    c: Rgba,
)
    requires
        w >= 0,
        h >= 0,
        forall|x: int, y: int| x0 <= x < x0 + w && y0 <= y < y0 + h ==> #[trigger] img[y][x] == c,
    ensures
        region_sum(img, x0, y0, w, h, k) == channel(c, k) * (w * h),
    decreases h,
{
    if h > 0 {
        lemma_region_sum_uniform(img, x0, y0, w, h - 1, k, c);
        let row = img[y0 + h - 1];
        assert forall|x: int| x0 <= x < x0 + w implies #[trigger] row[x] == c by {
            assert(img[y0 + h - 1][x] == c);
        }
        lemma_row_sum_uniform(row, x0, w, k, c);
        assert(channel(c, k) * (w * h) == channel(c, k) * (w * (h - 1)) + channel(c, k) * w)
            by (nonlinear_arith);
    } else {
        assert(channel(c, k) * (w * h) == 0) by (nonlinear_arith)
            requires
                h == 0,
        ;
    }
}

/// The mean colour of a rectangle whose pixels all have the colour `c` is
/// `c`, whatever the size of the rectangle, as long as it has pixels.
pub proof fn lemma_average_of_uniform(img: Seq<Seq<Rgba>>, pos: Vec2, size: Vec2, c: Rgba)
    requires
        size.x > 0,
        size.y > 0,
        forall|x: int, y: int|
            pos.x <= x < pos.x + size.x && pos.y <= y < pos.y + size.y ==> #[trigger] img[y][x]
                == c,
    ensures
        average(img, pos, size) == c,
{
    let n = size.x * size.y;
    assert(n > 0) by (nonlinear_arith)
        requires
            n == size.x * size.y,
            size.x > 0,
            size.y > 0,
    ;
    assert forall|k: int| 0 <= k < 4 implies channel_mean(img, pos, size, k) == channel(c, k) by {
        lemma_region_sum_uniform(
            img,
            pos.x as int,
            pos.y as int,
            size.x as int,
            size.y as int,
            k,
            c,
        );
        let v = channel(c, k);
        assert((v * n) / n == v) by (nonlinear_arith)
            requires
                n > 0,
        ;
    }
    assert(channel_mean(img, pos, size, 0) == channel(c, 0));
    assert(channel_mean(img, pos, size, 1) == channel(c, 1));
    assert(channel_mean(img, pos, size, 2) == channel(c, 2));
    assert(channel_mean(img, pos, size, 3) == channel(c, 3));
}

/// Calculates the average of each RGBA component individually over the
/// rectangle of `img` at `pos` with the extent `size`.
pub fn average_colors(img: &Raster, pos: &Vec2, size: &Vec2) -> (c: Rgba)
    requires
        img.wf(),
        size.x > 0,
        size.y > 0,
        pos.x + size.x <= img.width,
        pos.y + size.y <= img.height,
    ensures
        c == average(img@, *pos, *size),
{
    let mut tot_r: u128 = 0;
    let mut tot_g: u128 = 0;
    let mut tot_b: u128 = 0;
    let mut tot_a: u128 = 0;
    let mut dy: u32 = 0;
    let ghost x0 = pos.x as int;
    let ghost y0 = pos.y as int;
    let ghost w = size.x as int;
    while dy < size.y
        invariant
            img.wf(),
            dy <= size.y,
            pos.x + size.x <= img.width,
            pos.y + size.y <= img.height,
            x0 == pos.x,
            y0 == pos.y,
            w == size.x,
            tot_r == region_sum(img@, x0, y0, w, dy as int, 0),
            tot_g == region_sum(img@, x0, y0, w, dy as int, 1),
            tot_b == region_sum(img@, x0, y0, w, dy as int, 2),
            tot_a == region_sum(img@, x0, y0, w, dy as int, 3),
        decreases size.y - dy,
    {
        let mut row_r: u64 = 0;
        let mut row_g: u64 = 0;
        let mut row_b: u64 = 0;
        let mut row_a: u64 = 0;
        let mut dx: u32 = 0;
        let ghost row = img@[y0 + dy];
        while dx < size.x
            invariant
                img.wf(),
                dx <= size.x,
                dy < size.y,
                pos.x + size.x <= img.width,
                pos.y + size.y <= img.height,
                x0 == pos.x,
                y0 == pos.y,
                row == img@[y0 + dy],
                row_r == row_sum(row, x0, dx as int, 0),
                row_g == row_sum(row, x0, dx as int, 1),
                row_b == row_sum(row, x0, dx as int, 2),
                row_a == row_sum(row, x0, dx as int, 3),
            decreases size.x - dx,
        {
            proof {
                lemma_row_sum_bound(row, x0, dx as int, 0);
                lemma_row_sum_bound(row, x0, dx as int, 1);
                lemma_row_sum_bound(row, x0, dx as int, 2);
                lemma_row_sum_bound(row, x0, dx as int, 3);
            }
            let p = img.get_pixel(pos.x + dx, pos.y + dy);
            row_r = row_r + p.r as u64;
            row_g = row_g + p.g as u64;
            row_b = row_b + p.b as u64;
            row_a = row_a + p.a as u64;
            dx = dx + 1;
        }
        proof {
            lemma_region_sum_bound(img@, x0, y0, w, dy as int, 0);
            lemma_region_sum_bound(img@, x0, y0, w, dy as int, 1);
            lemma_region_sum_bound(img@, x0, y0, w, dy as int, 2);
            lemma_region_sum_bound(img@, x0, y0, w, dy as int, 3);
            lemma_row_sum_bound(row, x0, w, 0);
            lemma_row_sum_bound(row, x0, w, 1);
            lemma_row_sum_bound(row, x0, w, 2);
            lemma_row_sum_bound(row, x0, w, 3);
            assert(0 <= w * dy <= 0xFFFF_FFFF * 0xFFFF_FFFF) by (nonlinear_arith)
                requires
                    0 <= w <= 0xFFFF_FFFF,
                    0 <= dy <= 0xFFFF_FFFF,
            ;
        }
        tot_r = tot_r + row_r as u128;
        tot_g = tot_g + row_g as u128;
        tot_b = tot_b + row_b as u128;
        tot_a = tot_a + row_a as u128;
        dy = dy + 1;
    }
    proof {
        lemma_channel_mean_bound(img@, *pos, *size, 0);
        lemma_channel_mean_bound(img@, *pos, *size, 1);
        lemma_channel_mean_bound(img@, *pos, *size, 2);
        lemma_channel_mean_bound(img@, *pos, *size, 3);
        assert(0 < size.x * size.y <= 0xFFFF_FFFF * 0xFFFF_FFFF) by (nonlinear_arith)
            requires
                0 < size.x <= 0xFFFF_FFFF,
                0 < size.y <= 0xFFFF_FFFF,
        ;
    }
    let n: u128 = (size.x as u128) * (size.y as u128);
    Rgba {
        r: (tot_r / n) as u8,
        g: (tot_g / n) as u8,
        b: (tot_b / n) as u8,
        a: (tot_a / n) as u8,
    }
}

/// The largest of four numbers.
pub open spec fn max4(a: int, b: int, c: int, d: int) -> int {
    let ab = if a >= b { a } else { b };
    let cd = if c >= d { c } else { d };
    if ab >= cd { ab } else { cd }
}

/// The smallest of four numbers.
pub open spec fn min4(a: int, b: int, c: int, d: int) -> int {
    let ab = if a <= b { a } else { b };
    let cd = if c <= d { c } else { d };
    if ab <= cd { ab } else { cd }
}

/// How far channel `k` of four colours spreads: largest minus smallest.
pub open spec fn spread(v: Seq<Rgba>, k: int) -> int {
    max4(channel(v[0], k), channel(v[1], k), channel(v[2], k), channel(v[3], k)) - min4(
        channel(v[0], k),
        channel(v[1], k),
        channel(v[2], k),
        channel(v[3], k),
    )
}

/// The four colours are alike: on no channel do they spread further than the
/// threshold allows on that channel.
pub open spec fn within_treshold(v: Seq<Rgba>, treshold: Rgba) -> bool {
    &&& spread(v, 0) <= treshold.r
    &&& spread(v, 1) <= treshold.g
    &&& spread(v, 2) <= treshold.b
    &&& spread(v, 3) <= treshold.a
}

fn spread_of(a: u8, b: u8, c: u8, d: u8) -> (s: u8)
    ensures
        s == max4(a as int, b as int, c as int, d as int) - min4(
            a as int,
            b as int,
            c as int,
            d as int,
        ),
{
    let hi_ab = if a >= b { a } else { b };
    let hi_cd = if c >= d { c } else { d };
    let hi = if hi_ab >= hi_cd { hi_ab } else { hi_cd };
    let lo_ab = if a <= b { a } else { b };
    let lo_cd = if c <= d { c } else { d };
    let lo = if lo_ab <= lo_cd { lo_ab } else { lo_cd };
    hi - lo
}

/// Whether, on every channel, the difference between the largest and the
/// smallest of the four averages is at most the threshold of that channel.
pub fn are_le_treshold(sub_averages: &[Rgba; 4], treshold: &Rgba) -> (r: bool)
    ensures
        r == within_treshold(sub_averages@, *treshold),
{
    let a = sub_averages[0];
    let b = sub_averages[1];
    let c = sub_averages[2];
    let d = sub_averages[3];
    spread_of(a.r, b.r, c.r, d.r) <= treshold.r && spread_of(a.g, b.g, c.g, d.g) <= treshold.g
        && spread_of(a.b, b.b, c.b, d.b) <= treshold.b && spread_of(a.a, b.a, c.a, d.a)
        <= treshold.a
}

/// The top-left corners of the four quarters of the quad at `pos`: top-left,
/// top-right, bottom-left, bottom-right. `size` is the size of a quarter and
/// `modulo` what halving left over; the right and the lower quarters start
/// behind the left-over pixel.
pub open spec fn child_positions(pos: Vec2, size: Vec2, modulo: Vec2) -> Seq<Vec2> {
    let right = (pos.x + size.x + modulo.x) as u32;
    let low = (pos.y + size.y + modulo.y) as u32;
    seq![
        pos,
        Vec2 { x: right, y: pos.y },
        Vec2 { x: pos.x, y: low },
        Vec2 { x: right, y: low },
    ]
}

/// The four quarters of the quad at `pos` as fresh records of depth `depth`.
pub open spec fn subnodes(pos: Vec2, size: Vec2, modulo: Vec2, depth: u8) -> Seq<
    (Vec2, QuadInfo),
> {
    Seq::new(
        4,
        |i: int| (child_positions(pos, size, modulo)[i], QuadInfo { depth, color: None }),
    )
}

/// Creates subnodes of the specified size for a given pos and with the given
/// modulo in between.
pub fn generate_subnodes(pos: &Vec2, size: &Vec2, modulo: &Vec2, depth: u8) -> (r: [(
    Vec2,
    QuadInfo,
); 4])
    requires
        pos.x + size.x + modulo.x <= u32::MAX,
        pos.y + size.y + modulo.y <= u32::MAX,
    ensures
        r@ == subnodes(*pos, *size, *modulo, depth),
{
    let right = pos.x + size.x + modulo.x;
    let low = pos.y + size.y + modulo.y;
    let r = [
        (Vec2 { x: pos.x, y: pos.y }, QuadInfo::new(depth)),
        (Vec2 { x: right, y: pos.y }, QuadInfo::new(depth)),
        (Vec2 { x: pos.x, y: low }, QuadInfo::new(depth)),
        (Vec2 { x: right, y: low }, QuadInfo::new(depth)),
    ];
    assert(r@ =~= subnodes(*pos, *size, *modulo, depth));
    r
}

/// The rule by which quads are split.
#[derive(Copy, Clone, PartialEq, Eq, Debug, Structural)]
pub struct SplitRule {
    /// floor under which no quad is made
    pub min_quad_size: Vec2,
    /// levels up to this one are split whatever the colours, unless colours are kept
    pub min_depth: u8,
    /// spread per channel up to which four quarters count as alike
    pub treshold: Rgba,
    /// whether each quad gets its mean colour
    pub keep_color: bool,
}

/// The quad at `pos` and its four quarters lie within an image of `w` x `h`.
pub open spec fn node_fits(w: int, h: int, pos: Vec2, size: Vec2, modulo: Vec2) -> bool {
    &&& pos.x + size.x + modulo.x + size.x <= w
    &&& pos.y + size.y + modulo.y + size.y <= h
}

/// The mean colours of the four quarters of the quad at `pos`.
pub open spec fn child_averages(img: Seq<Seq<Rgba>>, pos: Vec2, size: Vec2, modulo: Vec2) -> Seq<
    Rgba,
> {
    Seq::new(4, |i: int| average(img, child_positions(pos, size, modulo)[i], size))
}

/// Whether the quad at `pos` is split at level `depth`: always on the levels
/// up to `min_depth` while no colours are kept, else when the mean colours of
/// its quarters spread further than the threshold allows on some channel.
pub open spec fn splits(
    img: Seq<Seq<Rgba>>,
    pos: Vec2,
    size: Vec2,
    modulo: Vec2,
    depth: u8,
    rule: SplitRule,
) -> bool {
    (depth <= rule.min_depth && !rule.keep_color) || !within_treshold(
        child_averages(img, pos, size, modulo),
        rule.treshold,
    )
}

/// The records of the four quarters of the quad at `pos`, with their mean
/// colours where colours are kept.
pub open spec fn children(
    img: Seq<Seq<Rgba>>,
    pos: Vec2,
    size: Vec2,
    modulo: Vec2,
    depth: u8,
    rule: SplitRule,
) -> Seq<(Vec2, QuadInfo)> {
    Seq::new(
        4,
        |i: int|
            (
                child_positions(pos, size, modulo)[i],
                QuadInfo {
                    depth,
                    color: if rule.keep_color {
                        Some(child_averages(img, pos, size, modulo)[i])
                    } else {
                        None
                    },
                },
            ),
    )
}

/// What becomes of the quad at `pos` at level `depth`: its four quarters if
/// it is split, nothing if it stays as it is.
pub open spec fn split_outcome(
    img: Seq<Seq<Rgba>>,
    pos: Vec2,
    size: Vec2,
    modulo: Vec2,
    depth: u8,
    rule: SplitRule,
) -> Option<Seq<(Vec2, QuadInfo)>> {
    if splits(img, pos, size, modulo, depth, rule) {
        Some(children(img, pos, size, modulo, depth, rule))
    } else {
        None
    }
}

/// `r` holds exactly what `expected` says.
pub open spec fn is_outcome(
    r: Option<[(Vec2, QuadInfo); 4]>,
    expected: Option<Seq<(Vec2, QuadInfo)>>,
) -> bool {
    match r {
        Some(q) => expected == Some(q@),
        None => expected is None,
    }
}

/// Decides whether the quad at `pos` is split at level `depth` and, if so,
/// returns its four quarters.
pub fn split_node(
    img: &Raster,
    pos: &Vec2,
    size: &Vec2,
    modulo: &Vec2,
    depth: u8,
    rule: &SplitRule,
) -> (r: Option<[(Vec2, QuadInfo); 4]>)
    requires
        img.wf(),
        size.x > 0,
        size.y > 0,
        node_fits(img.width as int, img.height as int, *pos, *size, *modulo),
    ensures
        is_outcome(r, split_outcome(img@, *pos, *size, *modulo, depth, *rule)),
{
    let subs = generate_subnodes(pos, size, modulo, depth);
    let ghost cp = child_positions(*pos, *size, *modulo);
    assert(subs@[0].0 == cp[0] && subs@[1].0 == cp[1] && subs@[2].0 == cp[2] && subs@[3].0
        == cp[3]);
    if depth > rule.min_depth || rule.keep_color {
        let top_left = subs[0].0;
        let top_right = subs[1].0;
        let low_left = subs[2].0;
        let low_right = subs[3].0;
        let averages = [
            average_colors(img, &top_left, size),
            average_colors(img, &top_right, size),
            average_colors(img, &low_left, size),
            average_colors(img, &low_right, size),
        ];
        assert(averages@ =~= child_averages(img@, *pos, *size, *modulo));
        if are_le_treshold(&averages, &rule.treshold) {
            return None;
        }
        if rule.keep_color {
            let colored = [
                (top_left, QuadInfo { depth, color: Some(averages[0]) }),
                (top_right, QuadInfo { depth, color: Some(averages[1]) }),
                (low_left, QuadInfo { depth, color: Some(averages[2]) }),
                (low_right, QuadInfo { depth, color: Some(averages[3]) }),
            ];
            assert(colored@ =~= children(img@, *pos, *size, *modulo, depth, *rule));
            return Some(colored);
        }
    }
    assert(subs@ =~= children(img@, *pos, *size, *modulo, depth, *rule));
    Some(subs)
}

/// Evaluates every quad of `frontier` with [`split_node`], in parallel.
///
/// This hands the work to rayon's `par_iter`, `map` and `collect`. It is
/// taken on trust that collecting into a `Vec` gives one result for each
/// quad, in the order of `frontier`, each as `split_node` returns it.
#[verifier::external_body]
fn split_all(
    img: &Raster,
    frontier: &Vec<Vec2>,
    size: &Vec2,
    modulo: &Vec2,
    depth: u8,
    rule: &SplitRule,
) -> (out: Vec<Option<[(Vec2, QuadInfo); 4]>>)
    requires
        img.wf(),
        size.x > 0,
        size.y > 0,
        forall|i: int|
            0 <= i < frontier@.len() ==> node_fits(
                img.width as int,
                img.height as int,
                #[trigger] frontier@[i],
                *size,
                *modulo,
            ),
    ensures
        out@.len() == frontier@.len(),
        forall|i: int|
            0 <= i < out@.len() ==> is_outcome(
                #[trigger] out@[i],
                split_outcome(img@, frontier@[i], *size, *modulo, depth, *rule),
            ),
{
    frontier.par_iter().map(|node| split_node(img, node, size, modulo, depth, rule)).collect()
}

/// The quads that one level adds: for each quad of `frontier` that is split,
/// in the order of `frontier`, its four quarters.
pub open spec fn level_entries(
    img: Seq<Seq<Rgba>>,
    frontier: Seq<Vec2>,
    size: Vec2,
    modulo: Vec2,
    depth: u8,
    rule: SplitRule,
) -> Seq<(Vec2, QuadInfo)>
    decreases frontier.len(),
{
    if frontier.len() == 0 {
        Seq::empty()
    } else {
        let rest = level_entries(img, frontier.drop_last(), size, modulo, depth, rule);
        match split_outcome(img, frontier.last(), size, modulo, depth, rule) {
            Some(c) => rest + c,
            None => rest,
        }
    }
}

/// `m` after each of `entries` was recorded in turn; a later record replaces
/// an earlier one at the same position.
pub open spec fn record_all(m: Map<Vec2, QuadInfo>, entries: Seq<(Vec2, QuadInfo)>) -> Map<
    Vec2,
    QuadInfo,
>
    decreases entries.len(),
{
    if entries.len() == 0 {
        m
    } else {
        record_all(m, entries.drop_last()).insert(entries.last().0, entries.last().1)
    }
}

/// The positions of `entries`, in their order.
pub open spec fn positions_of(entries: Seq<(Vec2, QuadInfo)>) -> Seq<Vec2> {
    Seq::new(entries.len(), |i: int| entries[i].0)
}

/// The quads that a list of results holds, in its order.
pub open spec fn flatten(outs: Seq<Option<[(Vec2, QuadInfo); 4]>>) -> Seq<(Vec2, QuadInfo)>
    decreases outs.len(),
{
    if outs.len() == 0 {
        Seq::empty()
    } else {
        let rest = flatten(outs.drop_last());
        match outs.last() {
            Some(q) => rest + q@,
            None => rest,
        }
    }
}

proof fn lemma_record_push(m: Map<Vec2, QuadInfo>, entries: Seq<(Vec2, QuadInfo)>, e: (
    Vec2,
    QuadInfo,
))
    ensures
        record_all(m, entries.push(e)) == record_all(m, entries).insert(e.0, e.1),
        positions_of(entries.push(e)) == positions_of(entries).push(e.0),
{
    assert(entries.push(e).drop_last() =~= entries);
    assert(positions_of(entries.push(e)) =~= positions_of(entries).push(e.0));
}

proof fn lemma_flatten_is_level(
    outs: Seq<Option<[(Vec2, QuadInfo); 4]>>,
    img: Seq<Seq<Rgba>>,
    frontier: Seq<Vec2>,
    size: Vec2,
    modulo: Vec2,
    depth: u8,
    rule: SplitRule,
)
    requires
        outs.len() == frontier.len(),
        forall|i: int|
            0 <= i < outs.len() ==> is_outcome(
                #[trigger] outs[i],
                split_outcome(img, frontier[i], size, modulo, depth, rule),
            ),
    ensures
        flatten(outs) == level_entries(img, frontier, size, modulo, depth, rule),
    decreases outs.len(),
{
    if outs.len() > 0 {
        lemma_flatten_is_level(
            outs.drop_last(),
            img,
            frontier.drop_last(),
            size,
            modulo,
            depth,
            rule,
        );
        assert(is_outcome(
            outs[outs.len() - 1],
            split_outcome(img, frontier[outs.len() - 1], size, modulo, depth, rule),
        ));
    }
}

/// What holds of the quarters of every split quad holds of every quad that
/// the level adds.
proof fn lemma_level_entries_all(
    img: Seq<Seq<Rgba>>,
    frontier: Seq<Vec2>,
    size: Vec2,
    modulo: Vec2,
    depth: u8,
    rule: SplitRule,
    ok: spec_fn((Vec2, QuadInfo)) -> bool,
)
    requires
        forall|i: int, j: int|
            0 <= i < frontier.len() && 0 <= j < 4 ==> ok(
                #[trigger] children(img, frontier[i], size, modulo, depth, rule)[j],
            ),
    ensures
        forall|k: int|
            0 <= k < level_entries(img, frontier, size, modulo, depth, rule).len() ==> ok(
                #[trigger] level_entries(img, frontier, size, modulo, depth, rule)[k],
            ),
    decreases frontier.len(),
{
    if frontier.len() > 0 {
        let rest = frontier.drop_last();
        assert forall|i: int, j: int| 0 <= i < rest.len() && 0 <= j < 4 implies ok(
            #[trigger] children(img, rest[i], size, modulo, depth, rule)[j],
        ) by {
            assert(rest[i] == frontier[i]);
            assert(ok(children(img, frontier[i], size, modulo, depth, rule)[j]));
        }
        lemma_level_entries_all(img, rest, size, modulo, depth, rule, ok);
        let all = level_entries(img, frontier, size, modulo, depth, rule);
        let before = level_entries(img, rest, size, modulo, depth, rule);
        assert forall|k: int| 0 <= k < all.len() implies ok(#[trigger] all[k]) by {
            if k < before.len() {
                assert(all[k] == before[k]);
            } else {
                let c = children(img, frontier.last(), size, modulo, depth, rule);
                assert(all[k] == c[k - before.len()]);
                assert(ok(children(img, frontier[frontier.len() - 1], size, modulo, depth, rule)[k
                    - before.len()]));
            }
        }
    }
}

/// What holds of every quad of a map and of every quad recorded in it still
/// holds of every quad of the map afterwards.
proof fn lemma_record_all_keeps(
    m: Map<Vec2, QuadInfo>,
    entries: Seq<(Vec2, QuadInfo)>,
    ok: spec_fn((Vec2, QuadInfo)) -> bool,
)
    requires
        forall|p: Vec2| #[trigger] m.contains_key(p) ==> ok((p, m[p])),
        forall|k: int| 0 <= k < entries.len() ==> ok(#[trigger] entries[k]),
    ensures
        forall|p: Vec2| #[trigger]
            record_all(m, entries).contains_key(p) ==> ok((p, record_all(m, entries)[p])),
    decreases entries.len(),
{
    if entries.len() > 0 {
        let rest = entries.drop_last();
        assert forall|k: int| 0 <= k < rest.len() implies ok(#[trigger] rest[k]) by {
            assert(rest[k] == entries[k]);
        }
        lemma_record_all_keeps(m, rest, ok);
        let e = entries.last();
        let before = record_all(m, rest);
        let after = record_all(m, entries);
        assert(after == before.insert(e.0, e.1));
        assert forall|p: Vec2| #[trigger] after.contains_key(p) implies ok((p, after[p])) by {
            if p == e.0 {
                assert(ok(entries[entries.len() - 1]));
                assert((p, after[p]) == e);
            } else {
                assert(before.contains_key(p));
                assert(after[p] == before[p]);
            }
        }
    }
}

/// Records the quads of `out` in `map`, one after the other, and returns
/// their positions in the same order.
fn merge_level(map: &mut QuadMap, out: &Vec<Option<[(Vec2, QuadInfo); 4]>>) -> (next: Vec<Vec2>)
    ensures
        final(map)@ == record_all(old(map)@, flatten(out@)),
        next@ == positions_of(flatten(out@)),
{
    let mut next: Vec<Vec2> = Vec::new();
    let mut i: usize = 0;
    assert(out@.take(0) =~= Seq::empty());
    assert(positions_of(flatten(out@.take(0))) =~= Seq::<Vec2>::empty());
    while i < out.len()
        invariant
            i <= out@.len(),
            map@ == record_all(old(map)@, flatten(out@.take(i as int))),
            next@ == positions_of(flatten(out@.take(i as int))),
        decreases out@.len() - i,
    {
        let ghost done = flatten(out@.take(i as int));
        proof {
            assert(out@.take(i + 1).drop_last() =~= out@.take(i as int));
            assert(out@.take(i + 1).last() == out@[i as int]);
        }
        match &out[i] {
            Some(q) => {
                let mut j: usize = 0;
                assert(done + q@.take(0) =~= done);
                while j < 4
                    invariant
                        j <= 4,
                        map@ == record_all(old(map)@, done + q@.take(j as int)),
                        next@ == positions_of(done + q@.take(j as int)),
                    decreases 4 - j,
                {
                    let e = q[j];
                    proof {
                        lemma_record_push(old(map)@, done + q@.take(j as int), e);
                        assert((done + q@.take(j as int)).push(e) =~= done + q@.take(j + 1));
                    }
                    map.insert(e.0, e.1);
                    next.push(e.0);
                    j = j + 1;
                }
                assert(q@.take(4) =~= q@);
            },
            None => {},
        }
        i = i + 1;
    }
    assert(out@.take(out@.len() as int) =~= out@);
    next
}

/// The whole part of the binary logarithm of `n`; 0 for 0.
pub open spec fn floor_log2(n: nat) -> nat
    decreases n,
{
    if n <= 1 {
        0
    } else {
        1 + floor_log2(n / 2)
    }
}

proof fn lemma_floor_log2_bound(n: nat, k: nat)
    requires
        n < pow2(k + 1),
    ensures
        floor_log2(n) <= k,
    decreases k,
{
    if n > 1 {
        lemma_pow2_unfold(k + 1);
        if k == 0 {
            lemma2_to64();
        } else {
            lemma_floor_log2_bound(n / 2, (k - 1) as nat);
        }
    }
}

/// The whole part of the binary logarithm of `n`; 0 for 0.
pub fn ilog2(n: u64) -> (r: u8)
    ensures
        r == floor_log2(n as nat),
        r <= 63,
{
    proof {
        lemma2_to64_rest();
        lemma_floor_log2_bound(n as nat, 63);
    }
    let mut r: u8 = 0;
    let mut m: u64 = n;
    while m > 1
        invariant
            r + floor_log2(m as nat) == floor_log2(n as nat),
            floor_log2(n as nat) <= 63,
        decreases m,
    {
        m = m / 2;
        r = r + 1;
    }
    r
}

/// The number of levels that a subdivision of a `w` x `h` image has at most:
/// half the binary logarithm of the number of pixels, rounded down.
pub open spec fn max_depth_of(w: nat, h: nat) -> nat {
    floor_log2(w * h) / 2
}

/// The sizes and quads that the levels from `depth` on leave behind when the
/// levels before have left `sizes` and `quads` and the quads of `frontier`
/// are still to be looked at.
///
/// A level halves the last size. No level is made once `depth` reaches
/// `max_depth`, once `frontier` is empty, or when the halved size is smaller
/// than the floor of `rule` on either axis. Else the halved size is
/// registered, the quarters of every split quad are recorded, and they are
/// the frontier of the next level.
pub open spec fn grow(
    img: Seq<Seq<Rgba>>,
    rule: SplitRule,
    max_depth: nat,
    depth: nat,
    sizes: Seq<Vec2>,
    frontier: Seq<Vec2>,
    quads: Map<Vec2, QuadInfo>,
) -> QuadModel
    decreases max_depth - depth,
{
    let size = sizes.last().half_size();
    let modulo = sizes.last().half_rest();
    if depth >= max_depth || frontier.len() == 0 || size.undercuts(rule.min_quad_size) {
        QuadModel { sizes, quads }
    } else {
        let entries = level_entries(img, frontier, size, modulo, depth as u8, rule);
        grow(
            img,
            rule,
            max_depth,
            depth + 1,
            sizes.push(size),
            positions_of(entries),
            record_all(quads, entries),
        )
    }
}

/// The record of an image that was not split: of depth 0, with the mean
/// colour of the whole image where colours are kept.
pub open spec fn root_record(img: Seq<Seq<Rgba>>, dims: Vec2, keep_color: bool) -> QuadInfo {
    QuadInfo {
        depth: 0,
        color: if keep_color {
            Some(average(img, Vec2 { x: 0, y: 0 }, dims))
        } else {
            None
        },
    }
}

/// The subdivision of the image `img` of the size `dims` by `rule`.
///
/// The levels start at depth 1 with the whole image as the only quad to look
/// at. Where they have recorded no quad at the origin, the image was not
/// split, and it is recorded there itself as one quad of depth 0, see
/// [`root_record`]. An image without a pixel has no quad at all.
pub open spec fn subdivision(img: Seq<Seq<Rgba>>, dims: Vec2, rule: SplitRule) -> QuadModel {
    let origin = Vec2 { x: 0, y: 0 };
    let grown = grow(
        img,
        rule,
        max_depth_of(dims.x as nat, dims.y as nat),
        1,
        seq![dims],
        seq![origin],
        Map::empty(),
    );
    if dims.x >= 1 && dims.y >= 1 && !grown.quads.contains_key(origin) {
        QuadModel {
            sizes: grown.sizes,
            quads: grown.quads.insert(origin, root_record(img, dims, rule.keep_color)),
        }
    } else {
        grown
    }
}

/// Subdivides `img` into quads.
///
/// Level by level the quads are split into four quarters: on the levels up to
/// `min_depth` always, as long as `do_calc_color` is off, and else wherever
/// the mean colours of the quarters differ by more than `treshold` on some
/// channel. No quad smaller than `min_quad_size` on either axis is made. With
/// `do_calc_color` every quad carries its mean colour. An image that was not
/// split at all is recorded as one quad of depth 0, unless it has no pixel.
pub fn calc_quads(
    img: &Raster,
    min_quad_size: &Vec2,
    min_depth: u8,
    treshold: &Rgba,
    do_calc_color: bool,
) -> (r: QuadStructure)
    requires
        img.wf(),
        min_quad_size.x >= 1,
        min_quad_size.y >= 1,
    ensures
        r@ == subdivision(
            img@,
            img.spec_dims(),
            SplitRule {
                min_quad_size: *min_quad_size,
                min_depth,
                treshold: *treshold,
                keep_color: do_calc_color,
            },
        ),
        r.sizes@[0] == img.spec_dims(),
        r@.halves(),
        r@.fits(),
        r@.sizes_have_pixels(),
{
    let rule = SplitRule {
        min_quad_size: *min_quad_size,
        min_depth,
        treshold: *treshold,
        keep_color: do_calc_color,
    };
    let dims = img.dims();
    proof {
        assert(0 <= img.width * img.height <= 0xFFFF_FFFF * 0xFFFF_FFFF) by (nonlinear_arith)
            requires
                0 <= img.width <= 0xFFFF_FFFF,
                0 <= img.height <= 0xFFFF_FFFF,
        ;
    }
    let max_depth: u8 = ilog2((img.width as u64) * (img.height as u64)) / 2;
    let mut map = QuadMap::new();
    let mut sizes: Vec<Vec2> = Vec::new();
    sizes.push(dims);
    let mut frontier: Vec<Vec2> = Vec::new();
    frontier.push(Vec2::zero());
    let mut curr_depth: u8 = 1;
    let ghost goal = grow(
        img@,
        rule,
        max_depth as nat,
        1,
        seq![dims],
        seq![Vec2 { x: 0, y: 0 }],
        Map::empty(),
    );
    proof {
        assert(sizes@ =~= seq![dims]);
        assert(frontier@ =~= seq![Vec2 { x: 0, y: 0 }]);
    }
    loop
        invariant
            img.wf(),
            dims == img.spec_dims(),
            rule.min_quad_size.x >= 1,
            rule.min_quad_size.y >= 1,
            max_depth <= 31,
            1 <= curr_depth,
            sizes@.len() == curr_depth,
            sizes@[0] == dims,
            forall|d: int| 1 <= d < sizes@.len() ==> #[trigger] sizes@[d] == sizes@[d - 1].half_size(),
            forall|d: int| 1 <= d < sizes@.len() ==> (#[trigger] sizes@[d]).x >= 1 && sizes@[d].y >= 1,
            forall|i: int|
                0 <= i < frontier@.len() ==> (#[trigger] frontier@[i]).x + sizes@.last().x
                    <= dims.x && frontier@[i].y + sizes@.last().y <= dims.y,
            forall|p: Vec2| #[trigger] map@.contains_key(p) ==> quad_fits(p, map@[p], sizes@),
            grow(img@, rule, max_depth as nat, curr_depth as nat, sizes@, frontier@, map@)
                == goal,
        ensures
            goal == (QuadModel { sizes: sizes@, quads: map@ }),
        decreases max_depth - curr_depth,
    {
        if curr_depth >= max_depth || frontier.len() == 0 {
            break ;
        }
        let last = sizes[sizes.len() - 1];
        let (size, modulo) = last.half();
        if size.is_below(&rule.min_quad_size) {
            break ;
        }
        let ghost old_sizes = sizes@;
        let ghost old_map = map@;
        sizes.push(size);
        let out = split_all(img, &frontier, &size, &modulo, curr_depth, &rule);
        let next = merge_level(&mut map, &out);
        proof {
            let entries = level_entries(img@, frontier@, size, modulo, curr_depth, rule);
            lemma_flatten_is_level(out@, img@, frontier@, size, modulo, curr_depth, rule);
            let ok = |e: (Vec2, QuadInfo)|
                e.1.depth == curr_depth && e.0.x + size.x <= dims.x && e.0.y + size.y <= dims.y;
            assert forall|i: int, j: int| 0 <= i < frontier@.len() && 0 <= j < 4 implies ok(
                #[trigger] children(img@, frontier@[i], size, modulo, curr_depth, rule)[j],
            ) by {
                assert(frontier@[i].x + last.x <= dims.x);
            }
            lemma_level_entries_all(img@, frontier@, size, modulo, curr_depth, rule, ok);
            let fit = |e: (Vec2, QuadInfo)| quad_fits(e.0, e.1, sizes@);
            assert forall|p: Vec2| #[trigger] old_map.contains_key(p) implies fit(
                (p, old_map[p]),
            ) by {
                assert(quad_fits(p, old_map[p], old_sizes));
                assert(sizes@[old_map[p].depth as int] == old_sizes[old_map[p].depth as int]);
            }
            assert(sizes@[curr_depth as int] == size);
            assert(size.x >= 1 && size.y >= 1);
            assert forall|k: int| 0 <= k < entries.len() implies fit(#[trigger] entries[k]) by {
                assert(ok(entries[k]));
            }
            lemma_record_all_keeps(old_map, entries, fit);
            assert forall|p: Vec2| #[trigger] map@.contains_key(p) implies quad_fits(
                p,
                map@[p],
                sizes@,
            ) by {
                assert(fit((p, map@[p])));
            }
            assert forall|i: int| 0 <= i < next@.len() implies (#[trigger] next@[i]).x
                + sizes@.last().x <= dims.x && next@[i].y + sizes@.last().y <= dims.y by {
                assert(ok(entries[i]));
            }
            assert forall|d: int| 1 <= d < sizes@.len() implies #[trigger] sizes@[d] == sizes@[d
                - 1].half_size() by {
                if d < old_sizes.len() {
                    assert(old_sizes[d] == old_sizes[d - 1].half_size());
                }
            }
            assert forall|d: int| 1 <= d < sizes@.len() implies (#[trigger] sizes@[d]).x >= 1
                && sizes@[d].y >= 1 by {
                if d < old_sizes.len() {
                    assert(old_sizes[d].x >= 1);
                }
            }
        }
        frontier = next;
        curr_depth = curr_depth + 1;
    }
    if dims.x >= 1 && dims.y >= 1 && !map.contains_key(&Vec2::zero()) {
        let root = if do_calc_color {
            QuadInfo::from_color(average_colors(img, &Vec2::zero(), &dims))
        } else {
            QuadInfo::new(0)
        };
        map.insert(Vec2::zero(), root);
    }
    let r = QuadStructure { map, sizes };
    proof {
        assert(max_depth as nat == max_depth_of(dims.x as nat, dims.y as nat));
        assert(r@ =~= subdivision(img@, dims, rule));
    }
    r
}

/// The positions and depths of quads, without their colours.
pub open spec fn outline(quads: Map<Vec2, QuadInfo>) -> Map<Vec2, u8> {
    quads.map_values(|q: QuadInfo| q.depth)
}

/// Two lists of quads agree in positions and depths.
pub open spec fn alike(a: Seq<(Vec2, QuadInfo)>, b: Seq<(Vec2, QuadInfo)>) -> bool {
    &&& a.len() == b.len()
    &&& forall|k: int|
        0 <= k < a.len() ==> (#[trigger] a[k]).0 == b[k].0 && a[k].1.depth == b[k].1.depth
}

/// `rule` with colours kept.
pub open spec fn with_colors(rule: SplitRule) -> SplitRule {
    SplitRule {
        min_quad_size: rule.min_quad_size,
        min_depth: rule.min_depth,
        treshold: rule.treshold,
        keep_color: true,
    }
}

proof fn lemma_level_alike(
    img: Seq<Seq<Rgba>>,
    frontier: Seq<Vec2>,
    size: Vec2,
    modulo: Vec2,
    depth: u8,
    rule: SplitRule,
)
    requires
        depth > rule.min_depth,
    ensures
        alike(
            level_entries(img, frontier, size, modulo, depth, rule),
            level_entries(img, frontier, size, modulo, depth, with_colors(rule)),
        ),
    decreases frontier.len(),
{
    if frontier.len() > 0 {
        lemma_level_alike(img, frontier.drop_last(), size, modulo, depth, rule);
        let colored = with_colors(rule);
        let pos = frontier.last();
        assert(splits(img, pos, size, modulo, depth, rule) == splits(
            img,
            pos,
            size,
            modulo,
            depth,
            colored,
        ));
        let a = level_entries(img, frontier, size, modulo, depth, rule);
        let b = level_entries(img, frontier, size, modulo, depth, colored);
        let a0 = level_entries(img, frontier.drop_last(), size, modulo, depth, rule);
        let b0 = level_entries(img, frontier.drop_last(), size, modulo, depth, colored);
        let ca = children(img, pos, size, modulo, depth, rule);
        let cb = children(img, pos, size, modulo, depth, colored);
        assert forall|k: int| 0 <= k < a.len() implies (#[trigger] a[k]).0 == b[k].0
            && a[k].1.depth == b[k].1.depth by {
            if k < a0.len() {
                assert(a[k] == a0[k]);
                assert(b[k] == b0[k]);
            } else {
                assert(a[k] == ca[k - a0.len()]);
                assert(b[k] == cb[k - a0.len()]);
            }
        }
    }
}

proof fn lemma_record_alike(
    qa: Map<Vec2, QuadInfo>,
    qb: Map<Vec2, QuadInfo>,
    a: Seq<(Vec2, QuadInfo)>,
    b: Seq<(Vec2, QuadInfo)>,
)
    requires
        outline(qa) == outline(qb),
        alike(a, b),
    ensures
        outline(record_all(qa, a)) == outline(record_all(qb, b)),
        positions_of(a) == positions_of(b),
    decreases a.len(),
{
    assert(positions_of(a) =~= positions_of(b));
    if a.len() > 0 {
        let a0 = a.drop_last();
        let b0 = b.drop_last();
        assert forall|k: int| 0 <= k < a0.len() implies (#[trigger] a0[k]).0 == b0[k].0
            && a0[k].1.depth == b0[k].1.depth by {
            assert(a0[k] == a[k]);
            assert(b0[k] == b[k]);
        }
        lemma_record_alike(qa, qb, a0, b0);
        let ra = record_all(qa, a0);
        let rb = record_all(qb, b0);
        assert(a[a.len() - 1].0 == b[a.len() - 1].0);
        assert(outline(ra.insert(a.last().0, a.last().1)) =~= outline(ra).insert(
            a.last().0,
            a.last().1.depth,
        ));
        assert(outline(rb.insert(b.last().0, b.last().1)) =~= outline(rb).insert(
            b.last().0,
            b.last().1.depth,
        ));
    }
}

proof fn lemma_grow_alike(
    img: Seq<Seq<Rgba>>,
    rule: SplitRule,
    max_depth: nat,
    depth: nat,
    sizes: Seq<Vec2>,
    frontier: Seq<Vec2>,
    qa: Map<Vec2, QuadInfo>,
    qb: Map<Vec2, QuadInfo>,
)
    requires
        rule.min_depth == 0,
        1 <= depth,
        max_depth <= 255,
        outline(qa) == outline(qb),
    ensures
        grow(img, rule, max_depth, depth, sizes, frontier, qa).sizes == grow(
            img,
            with_colors(rule),
            max_depth,
            depth,
            sizes,
            frontier,
            qb,
        ).sizes,
        outline(grow(img, rule, max_depth, depth, sizes, frontier, qa).quads) == outline(
            grow(img, with_colors(rule), max_depth, depth, sizes, frontier, qb).quads,
        ),
    decreases max_depth - depth,
{
    let size = sizes.last().half_size();
    let modulo = sizes.last().half_rest();
    if depth >= max_depth || frontier.len() == 0 || size.undercuts(rule.min_quad_size) {
    } else {
        let a = level_entries(img, frontier, size, modulo, depth as u8, rule);
        let b = level_entries(img, frontier, size, modulo, depth as u8, with_colors(rule));
        lemma_level_alike(img, frontier, size, modulo, depth as u8, rule);
        lemma_record_alike(qa, qb, a, b);
        lemma_grow_alike(
            img,
            rule,
            max_depth,
            depth + 1,
            sizes.push(size),
            positions_of(a),
            record_all(qa, a),
            record_all(qb, b),
        );
    }
}

/// Keeping colours does not move quads: where no level is split
/// unconditionally (`min_depth` is 0), the subdivision with colours has the
/// sizes of the one without, and the same quads at the same depths.
pub proof fn lemma_colors_keep_outline(img: Seq<Seq<Rgba>>, dims: Vec2, rule: SplitRule)
    requires
        rule.min_depth == 0,
    ensures
        subdivision(img, dims, with_colors(rule)).sizes == subdivision(img, dims, rule).sizes,
        outline(subdivision(img, dims, with_colors(rule)).quads) == outline(
            subdivision(img, dims, rule).quads,
        ),
{
    let origin = Vec2 { x: 0, y: 0 };
    let max_depth = max_depth_of(dims.x as nat, dims.y as nat);
    assert(max_depth <= 255) by {
        assert(0 <= dims.x * dims.y <= 0xFFFF_FFFF * 0xFFFF_FFFF) by (nonlinear_arith)
            requires
                0 <= dims.x <= 0xFFFF_FFFF,
                0 <= dims.y <= 0xFFFF_FFFF,
        ;
        lemma2_to64_rest();
        lemma_floor_log2_bound((dims.x * dims.y) as nat, 63);
    }
    lemma_grow_alike(
        img,
        rule,
        max_depth,
        1,
        seq![dims],
        seq![origin],
        Map::empty(),
        Map::empty(),
    );
    let plain = grow(img, rule, max_depth, 1, seq![dims], seq![origin], Map::empty());
    let colored = grow(
        img,
        with_colors(rule),
        max_depth,
        1,
        seq![dims],
        seq![origin],
        Map::empty(),
    );
    assert(plain.quads.contains_key(origin) <==> outline(plain.quads).contains_key(origin));
    assert(colored.quads.contains_key(origin) <==> outline(colored.quads).contains_key(origin));
    if dims.x >= 1 && dims.y >= 1 && !plain.quads.contains_key(origin) {
        assert(outline(colored.quads.insert(origin, root_record(img, dims, true)))
            =~= outline(colored.quads).insert(origin, 0));
        assert(outline(plain.quads.insert(origin, root_record(img, dims, rule.keep_color)))
            =~= outline(plain.quads).insert(origin, 0));
    }
}

/// The quads of an image that was not split: the image itself, see
/// [`root_record`].
pub open spec fn root_only(img: Seq<Seq<Rgba>>, dims: Vec2, keep_color: bool) -> Map<
    Vec2,
    QuadInfo,
> {
    Map::empty().insert(Vec2 { x: 0, y: 0 }, root_record(img, dims, keep_color))
}

/// An image that has too few pixels for a level, or whose halves would be
/// smaller than the smallest quad on either axis, is not split: only its own
/// size is registered, and it is recorded as one quad of depth 0.
pub proof fn lemma_small_image_is_not_split(img: Seq<Seq<Rgba>>, dims: Vec2, rule: SplitRule)
    requires
        dims.x >= 1,
        dims.y >= 1,
        max_depth_of(dims.x as nat, dims.y as nat) <= 1 || dims.half_size().undercuts(
            rule.min_quad_size,
        ),
    ensures
        subdivision(img, dims, rule).sizes == seq![dims],
        subdivision(img, dims, rule).quads == root_only(img, dims, rule.keep_color),
{
    assert(seq![dims].last() == dims);
}

/// An image without a pixel has no quad, and only its own size is
/// registered.
pub proof fn lemma_empty_image_has_no_quad(img: Seq<Seq<Rgba>>, dims: Vec2, rule: SplitRule)
    requires
        dims.x == 0 || dims.y == 0,
    ensures
        subdivision(img, dims, rule).sizes == seq![dims],
        subdivision(img, dims, rule).quads == Map::<Vec2, QuadInfo>::empty(),
{
    assert(dims.x * dims.y == 0) by (nonlinear_arith)
        requires
            dims.x == 0 || dims.y == 0,
    ;
    assert(seq![dims].last() == dims);
}

/// An image of one colour is not split as long as colours are kept or no
/// level is split unconditionally: it is recorded as one quad of depth 0, in
/// that colour where colours are kept. At most the size of the first level is
/// registered besides its own.
pub proof fn lemma_uniform_image_is_not_split(
    img: Seq<Seq<Rgba>>,
    dims: Vec2,
    rule: SplitRule,
    c: Rgba,
)
    requires
        dims.x >= 1,
        dims.y >= 1,
        rule.min_quad_size.x >= 1,
        rule.min_quad_size.y >= 1,
        rule.keep_color || rule.min_depth == 0,
        forall|x: int, y: int| 0 <= x < dims.x && 0 <= y < dims.y ==> #[trigger] img[y][x] == c,
    ensures
        subdivision(img, dims, rule).sizes == seq![dims] || subdivision(img, dims, rule).sizes
            == seq![dims, dims.half_size()],
        subdivision(img, dims, rule).quads == Map::<Vec2, QuadInfo>::empty().insert(
            Vec2 { x: 0, y: 0 },
            QuadInfo {
                depth: 0,
                color: if rule.keep_color {
                    Some(c)
                } else {
                    None
                },
            },
        ),
{
    let origin = Vec2 { x: 0, y: 0 };
    let max_depth = max_depth_of(dims.x as nat, dims.y as nat);
    let size = dims.half_size();
    let modulo = dims.half_rest();
    let sizes = seq![dims];
    let frontier = seq![origin];
    assert(sizes.last() == dims);
    lemma_average_of_uniform(img, origin, dims, c);
    if 1 >= max_depth || size.undercuts(rule.min_quad_size) {
    } else {
        let quarters = child_positions(origin, size, modulo);
        let means = child_averages(img, origin, size, modulo);
        assert forall|i: int| 0 <= i < 4 implies #[trigger] means[i] == c by {
            let p = quarters[i];
            assert(p.x + size.x <= dims.x && p.y + size.y <= dims.y);
            lemma_average_of_uniform(img, p, size, c);
        }
        assert(within_treshold(means, rule.treshold));
        assert(!splits(img, origin, size, modulo, 1, rule));
        assert(frontier.drop_last() =~= Seq::<Vec2>::empty());
        assert(frontier.last() == origin);
        let entries = level_entries(img, frontier, size, modulo, 1, rule);
        assert(level_entries(img, frontier.drop_last(), size, modulo, 1, rule)
            =~= Seq::<(Vec2, QuadInfo)>::empty());
        assert(entries =~= Seq::<(Vec2, QuadInfo)>::empty());
        assert(positions_of(entries) =~= Seq::<Vec2>::empty());
        assert(record_all(Map::<Vec2, QuadInfo>::empty(), entries) == Map::<
            Vec2,
            QuadInfo,
        >::empty());
        let grown = grow(img, rule, max_depth, 1, sizes, frontier, Map::empty());
        assert(grown == grow(
            img,
            rule,
            max_depth,
            2,
            sizes.push(size),
            positions_of(entries),
            record_all(Map::empty(), entries),
        ));
        assert(sizes.push(size) =~= seq![dims, size]);
    }
}

proof fn lemma_grow_colors(
    img: Seq<Seq<Rgba>>,
    rule: SplitRule,
    max_depth: nat,
    depth: nat,
    sizes: Seq<Vec2>,
    frontier: Seq<Vec2>,
    quads: Map<Vec2, QuadInfo>,
)
    requires
        forall|p: Vec2| #[trigger]
            quads.contains_key(p) ==> (quads[p].color is Some) == rule.keep_color,
    ensures
        forall|p: Vec2| #[trigger]
            grow(img, rule, max_depth, depth, sizes, frontier, quads).quads.contains_key(p) ==> (
            grow(img, rule, max_depth, depth, sizes, frontier, quads).quads[p].color is Some)
                == rule.keep_color,
    decreases max_depth - depth,
{
    let size = sizes.last().half_size();
    let modulo = sizes.last().half_rest();
    if depth >= max_depth || frontier.len() == 0 || size.undercuts(rule.min_quad_size) {
    } else {
        let entries = level_entries(img, frontier, size, modulo, depth as u8, rule);
        let ok = |e: (Vec2, QuadInfo)| (e.1.color is Some) == rule.keep_color;
        lemma_level_entries_all(img, frontier, size, modulo, depth as u8, rule, ok);
        assert forall|p: Vec2| #[trigger] quads.contains_key(p) implies ok((p, quads[p])) by {}
        lemma_record_all_keeps(quads, entries, ok);
        let recorded = record_all(quads, entries);
        assert forall|p: Vec2| #[trigger] recorded.contains_key(p) implies (recorded[p].color
            is Some) == rule.keep_color by {
            assert(ok((p, recorded[p])));
        }
        lemma_grow_colors(
            img,
            rule,
            max_depth,
            depth + 1,
            sizes.push(size),
            positions_of(entries),
            recorded,
        );
    }
}

/// Every quad of a subdivision has a colour where colours are kept, and none
/// has one where they are not.
pub proof fn lemma_colors_follow_rule(img: Seq<Seq<Rgba>>, dims: Vec2, rule: SplitRule)
    ensures
        forall|p: Vec2| #[trigger]
            subdivision(img, dims, rule).quads.contains_key(p) ==> (subdivision(
                img,
                dims,
                rule,
            ).quads[p].color is Some) == rule.keep_color,
{
    lemma_grow_colors(
        img,
        rule,
        max_depth_of(dims.x as nat, dims.y as nat),
        1,
        seq![dims],
        seq![Vec2 { x: 0, y: 0 }],
        Map::empty(),
    );
}

} // verus!
