//! An RGBA raster held in memory, and the mathematical model of one: a
//! sequence of rows, each a sequence of colours.
use crate::utils::{Rgba, Vec2};
use vstd::prelude::*;

verus! {

/// An image of `width` x `height` pixels. `data` holds the pixels row by row,
/// four bytes (red, green, blue, alpha) for each.
#[derive(Clone, PartialEq, Eq, Debug)]
pub struct Raster {
    pub width: u32,
    pub height: u32,
    pub data: Vec<u8>,
}

/// The colour that the four bytes from `4 * k` on stand for.
pub open spec fn texel(data: Seq<u8>, k: int) -> Rgba {
    Rgba { r: data[4 * k], g: data[4 * k + 1], b: data[4 * k + 2], a: data[4 * k + 3] }
}

/// The number of bytes that the pixels of a `w` x `h` image take.
pub open spec fn byte_len(w: int, h: int) -> int {
    4 * (w * h)
}

/// `p` has `h` rows of `w` pixels each.
pub open spec fn is_grid(p: Seq<Seq<Rgba>>, w: int, h: int) -> bool {
    &&& p.len() == h
    &&& forall|y: int| 0 <= y < h ==> (#[trigger] p[y]).len() == w
}

/// The grid of `w` x `h` pixels that all have the colour `c`.
pub open spec fn plain(w: nat, h: nat, c: Rgba) -> Seq<Seq<Rgba>> {
    Seq::new(h, |y: int| Seq::new(w, |x: int| c))
}

/// Row-major pixel numbers stay below the pixel count.
pub proof fn lemma_index_bound(w: int, h: int, x: int, y: int)
    requires
        0 <= x < w,
        0 <= y < h,
    ensures
        0 <= y * w + x < w * h,
        y * w + x + 1 <= w * h,
{
    assert(y * w >= 0) by (nonlinear_arith)
        requires
            y >= 0,
            w >= 0,
    ;
    assert((y + 1) * w <= h * w) by (nonlinear_arith)
        requires
            y + 1 <= h,
            w >= 0,
    ;
    assert((y + 1) * w == y * w + w) by (nonlinear_arith);
    assert(h * w == w * h) by (nonlinear_arith);
}

/// Different pixels have different row-major numbers.
pub proof fn lemma_index_distinct(w: int, x: int, y: int, i: int, j: int)
    requires
        0 <= x < w,
        0 <= i < w,
        0 <= y,
        0 <= j,
        x != i || y != j,
    ensures
        y * w + x != j * w + i,
{
    if y < j {
        assert((y + 1) * w <= j * w) by (nonlinear_arith)
            requires
                y + 1 <= j,
                w >= 0,
        ;
        assert((y + 1) * w == y * w + w) by (nonlinear_arith);
    } else if j < y {
        assert((j + 1) * w <= y * w) by (nonlinear_arith)
            requires
                j + 1 <= y,
                w >= 0,
        ;
        assert((j + 1) * w == j * w + w) by (nonlinear_arith);
    }
}

impl View for Raster {
    type V = Seq<Seq<Rgba>>;

    /// The rows of the image, top to bottom, each from left to right.
    open spec fn view(&self) -> Seq<Seq<Rgba>> {
        Seq::new(
            self.height as nat,
            |y: int| Seq::new(self.width as nat, |x: int| self.pixel(x, y)),
        )
    }
}

impl Raster {
    /// The buffer has exactly the bytes of `width * height` pixels.
    pub open spec fn wf(&self) -> bool {
        self.data@.len() == byte_len(self.width as int, self.height as int)
    }

    /// The colour of the pixel in column `x` of row `y`.
    pub open spec fn pixel(&self, x: int, y: int) -> Rgba {
        texel(self.data@, y * self.width + x)
    }

    /// Width and height as a pair.
    pub open spec fn spec_dims(&self) -> Vec2 {
        Vec2 { x: self.width, y: self.height }
    }

    /// Width and height as a pair.
    #[verifier::when_used_as_spec(spec_dims)]
    pub fn dims(&self) -> (d: Vec2)
        ensures
            d == self.spec_dims(),
    {
        Vec2 { x: self.width, y: self.height }
    }

    /// An image of the given size with every pixel of colour `c`.
    pub fn from_pixel(width: u32, height: u32, c: Rgba) -> (img: Raster)
        requires
            byte_len(width as int, height as int) <= usize::MAX,
        ensures
            img.wf(),
            img.width == width,
            img.height == height,
            img@ == plain(width as nat, height as nat, c),
    {
        proof {
            assert(0 <= width * height) by (nonlinear_arith)
                requires
                    width >= 0,
                    height >= 0,
            ;
        }
        let n: usize = (width as usize) * (height as usize);
        let mut data: Vec<u8> = Vec::new();
        let mut i: usize = 0;
        while i < n
            invariant
                i <= n,
                4 * n <= usize::MAX,
                data@.len() == 4 * i,
                forall|k: int| 0 <= k < i ==> #[trigger] texel(data@, k) == c,
            decreases n - i,
        {
            let ghost before = data@;
            data.push(c.r);
            data.push(c.g);
            data.push(c.b);
            data.push(c.a);
            proof {
                assert forall|k: int| 0 <= k < i + 1 implies #[trigger] texel(data@, k) == c by {
                    if k < i {
                        assert(texel(before, k) == c);
                    }
                }
            }
            i = i + 1;
        }
        let img = Raster { width, height, data };
        proof {
            assert forall|y: int| 0 <= y < height implies #[trigger] img@[y] == plain(
                width as nat,
                height as nat,
                c,
            )[y] by {
                assert forall|x: int| 0 <= x < width implies #[trigger] img@[y][x] == c by {
                    lemma_index_bound(width as int, height as int, x, y);
                    assert(texel(img.data@, y * width + x) == c);
                }
                assert(img@[y] =~= plain(width as nat, height as nat, c)[y]);
            }
            assert(img@ =~= plain(width as nat, height as nat, c));
        }
        img
    }

    /// A fully transparent image of the given size.
    pub fn new(width: u32, height: u32) -> (img: Raster)
        requires
            byte_len(width as int, height as int) <= usize::MAX,
        ensures
            img.wf(),
            img.width == width,
            img.height == height,
            img@ == plain(width as nat, height as nat, Rgba { r: 0, g: 0, b: 0, a: 0 }),
    {
        Raster::from_pixel(width, height, Rgba { r: 0, g: 0, b: 0, a: 0 })
    }

    /// Takes `data` as the pixels of an image of the given size, if it holds
    /// exactly four bytes for each of them.
    pub fn from_raw(width: u32, height: u32, data: Vec<u8>) -> (r: Option<Raster>)
        ensures
            r is Some <==> data@.len() == byte_len(width as int, height as int),
            r matches Some(img) ==> img.wf() && img.width == width && img.height == height
                && img.data == data,
    {
        proof {
            assert(0 <= width * height <= 0xFFFF_FFFF * 0xFFFF_FFFF) by (nonlinear_arith)
                requires
                    0 <= width <= 0xFFFF_FFFF,
                    0 <= height <= 0xFFFF_FFFF,
            ;
        }
        let need: u128 = 4 * ((width as u128) * (height as u128));
        if data.len() as u128 == need {
            Some(Raster { width, height, data })
        } else {
            None
        }
    }

    /// The colour of the pixel at `(x, y)`.
    pub fn get_pixel(&self, x: u32, y: u32) -> (c: Rgba)
        requires
            self.wf(),
            x < self.width,
            y < self.height,
        ensures
            c == self.pixel(x as int, y as int),
            c == self@[y as int][x as int],
    {
        proof {
            lemma_index_bound(self.width as int, self.height as int, x as int, y as int);
        }
        let len: usize = self.data.len();
        let k: usize = (y as usize) * (self.width as usize) + (x as usize);
        let o: usize = 4 * k;
        Rgba { r: self.data[o], g: self.data[o + 1], b: self.data[o + 2], a: self.data[o + 3] }
    }

    /// Sets the pixel at `(x, y)` to `c` and leaves every other pixel as it is.
    pub fn put_pixel(&mut self, x: u32, y: u32, c: Rgba)
        requires
            old(self).wf(),
            x < old(self).width,
            y < old(self).height,
        ensures
            final(self).wf(),
            final(self).width == old(self).width,
            final(self).height == old(self).height,
            final(self)@ == old(self)@.update(y as int, old(self)@[y as int].update(x as int, c)),
    {
        proof {
            lemma_index_bound(self.width as int, self.height as int, x as int, y as int);
        }
        let len: usize = self.data.len();
        let k: usize = (y as usize) * (self.width as usize) + (x as usize);
        let o: usize = 4 * k;
        self.data.set(o, c.r);
        self.data.set(o + 1, c.g);
        self.data.set(o + 2, c.b);
        self.data.set(o + 3, c.a);
        proof {
            let w = self.width as int;
            let h = self.height as int;
            let goal = old(self)@.update(y as int, old(self)@[y as int].update(x as int, c));
            assert forall|j: int| 0 <= j < h implies #[trigger] self@[j] == goal[j] by {
                assert forall|i: int| 0 <= i < w implies #[trigger] self@[j][i] == goal[j][i] by {
                    if i == x && j == y {
                        assert(self.pixel(i, j) == c);
                    } else {
                        lemma_index_distinct(w, x as int, y as int, i, j);
                        lemma_index_bound(w, h, i, j);
                        assert(self.pixel(i, j) == old(self).pixel(i, j));
                    }
                }
                assert(self@[j] =~= goal[j]);
            }
            assert(self@ =~= goal);
        }
    }

    /// A copy of this image.
    pub fn duplicate(&self) -> (img: Raster)
        ensures
            img.width == self.width,
            img.height == self.height,
            img.data@ == self.data@,
            img@ == self@,
            self.wf() ==> img.wf(),
    {
        let data = self.data.clone();
        assert(data@ =~= self.data@);
        let img = Raster { width: self.width, height: self.height, data };
        assert(img@ =~~= self@);
        img
    }
}

} // verus!
