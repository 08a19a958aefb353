//! Procedural texture generation: gradient, checkerboard and plasma pixel
//! buffers, each pinned byte-for-byte to a specification function.
//!
//! A pixel buffer is a flat byte sequence of length `width * height * 4`,
//! row-major, one `R,G,B,A` quadruple per pixel.

use vstd::prelude::*;
use vstd::arithmetic::div_mod::{
    lemma_div_is_ordered, lemma_div_pos_is_pos, lemma_fundamental_div_mod_converse,
    lemma_multiply_divide_lt,
};
use crate::MediaError;

verus! {

/// A generator of procedural pixel buffers with fixed dimensions.
pub struct TextureGenerator {
    width: u32,
    height: u32,
}

/// Decodes flat buffer index `i` as `(pixel, channel)`: `i = 4 * pixel + channel`.
proof fn lemma_byte_index(p: int, c: int)
    requires
        0 <= p,
        0 <= c < 4,
    ensures
        (4 * p + c) / 4 == p,
        (4 * p + c) % 4 == c,
{
    lemma_fundamental_div_mod_converse(4 * p + c, 4, p, c);
}

/// Decodes row-major pixel index `y * w + x` back into its coordinates.
proof fn lemma_pixel_coords(w: int, h: int, x: int, y: int)
    requires
        0 <= x < w,
        0 <= y < h,
    ensures
        (y * w + x) % w == x,
        (y * w + x) / w == y,
        0 <= y * w + x < w * h,
{
    lemma_fundamental_div_mod_converse(y * w + x, w, y, x);
    assert(0 <= y * w + x < w * h) by (nonlinear_arith)
        requires
            0 <= x < w,
            0 <= y < h,
    ;
}

/// The byte at flat index `i` of a `w` by `h` gradient buffer: red rises with
/// `x`, green rises with `y`, blue is 128 and alpha 255.
pub open spec fn gradient_byte(w: int, h: int, i: int) -> u8 {
    let p = i / 4;
    let c = i % 4;
    let x = p % w;
    let y = p / w;
    if c == 0 {
        ((x * 255) / w) as u8
    } else if c == 1 {
        ((y * 255) / h) as u8
    } else if c == 2 {
        128u8
    } else {
        255u8
    }
}

/// The whole gradient buffer for dimensions `w` by `h`.
pub open spec fn gradient_buffer(w: int, h: int) -> Seq<u8> {
    Seq::new((w * h * 4) as nat, |i: int| gradient_byte(w, h, i))
}

/// The byte at flat index `i` of a checkerboard buffer with square size `s`:
/// cells of parity 0 are white, parity 1 black, alpha always 255.
pub open spec fn checker_byte(w: int, s: int, i: int) -> u8 {
    let p = i / 4;
    let c = i % 4;
    let x = p % w;
    let y = p / w;
    if c == 3 {
        255u8
    } else if (x / s + y / s) % 2 == 0 {
        255u8
    } else {
        0u8
    }
}

/// The whole checkerboard buffer for dimensions `w` by `h` and square size `s`.
pub open spec fn checker_buffer(w: int, h: int, s: int) -> Seq<u8> {
    Seq::new((w * h * 4) as nat, |i: int| checker_byte(w, s, i))
}

/// The byte at flat index `i` of a plasma buffer assembled from per-pixel
/// channel values `ch`: red and green carry the channel value, blue its
/// complement, alpha 255.
pub open spec fn plasma_byte(ch: Seq<u8>, i: int) -> u8 {
    let p = i / 4;
    let c = i % 4;
    if c == 0 || c == 1 {
        ch[p]
    } else if c == 2 {
        (255 - ch[p]) as u8
    } else {
        255u8
    }
}

/// The whole plasma buffer assembled from per-pixel channel values `ch`.
pub open spec fn plasma_buffer(ch: Seq<u8>) -> Seq<u8> {
    Seq::new(ch.len() * 4, |i: int| plasma_byte(ch, i))
}

impl TextureGenerator {
    pub closed spec fn spec_width(&self) -> u32 {
        self.width
    }

    pub closed spec fn spec_height(&self) -> u32 {
        self.height
    }

    /// True when a full RGBA buffer for these dimensions fits in memory.
    pub open spec fn fits(&self) -> bool {
        self.spec_width() * self.spec_height() * 4 <= usize::MAX
    }

    pub fn new(width: u32, height: u32) -> (r: Self)
        ensures
            r.spec_width() == width,
            r.spec_height() == height,
    {
        TextureGenerator { width, height }
    }

    pub fn get_width(&self) -> (r: u32)
        ensures
            r == self.spec_width(),
    {
        self.width
    }

    pub fn get_height(&self) -> (r: u32)
        ensures
            r == self.spec_height(),
    {
        self.height
    }

    /// Builds the gradient buffer for this generator's dimensions.
    pub fn generate_gradient(&self) -> (r: Vec<u8>)
        requires
            self.fits(),
        ensures
            r@ == gradient_buffer(self.spec_width() as int, self.spec_height() as int),
    {
        let w = self.width;
        let h = self.height;
        let ghost gw = w as int;
        let ghost gh = h as int;
        let ghost target = gradient_buffer(gw, gh);
        let mut data: Vec<u8> = Vec::new();
        let mut y: u32 = 0;
        while y < h
            invariant
                w == self.spec_width(),
                h == self.spec_height(),
                self.fits(),
                gw == w as int,
                gh == h as int,
                target == gradient_buffer(gw, gh),
                y <= h,
                data@.len() == 4 * ((y as int) * gw),
                data@ == target.take(data@.len() as int),
            decreases h - y,
        {
            let mut x: u32 = 0;
            while x < w
                invariant
                    w == self.spec_width(),
                    h == self.spec_height(),
                    self.fits(),
                    gw == w as int,
                    gh == h as int,
                    target == gradient_buffer(gw, gh),
                    y < h,
                    x <= w,
                    data@.len() == 4 * ((y as int) * gw + (x as int)),
                    data@ == target.take(data@.len() as int),
                decreases w - x,
            {
                let red = ((x as u64) * 255 / (w as u64)) as u8;
                let green = ((y as u64) * 255 / (h as u64)) as u8;
                data.push(red);
                data.push(green);
                data.push(128u8);
                data.push(255u8);
                proof {
                    let xi = x as int;
                    let yi = y as int;
                    let p = yi * gw + xi;
                    lemma_pixel_coords(gw, gh, xi, yi);
                    lemma_byte_index(p, 0);
                    lemma_byte_index(p, 1);
                    lemma_byte_index(p, 2);
                    lemma_byte_index(p, 3);
                    assert(target[4 * p + 0] == red);
                    assert(target[4 * p + 1] == green);
                    assert(target[4 * p + 2] == 128u8);
                    assert(target[4 * p + 3] == 255u8);
                    assert(data@ =~= target.take((4 * p + 4) as int));
                }
                x = x + 1;
            }
            proof {
                assert(((y as int) + 1) * gw == (y as int) * gw + gw) by (nonlinear_arith);
            }
            y = y + 1;
        }
        proof {
            assert(gw * gh * 4 == 4 * (gh * gw)) by (nonlinear_arith);
            assert(data@ =~= target);
        }
        data
    }

    /// Builds the checkerboard buffer, rejecting a zero square size before any
    /// arithmetic can divide by it.
    pub fn generate_checkerboard(&self, square_size: u32) -> (r: Result<Vec<u8>, MediaError>)
        requires
            self.fits(),
        ensures
            square_size == 0 ==> r == Result::<Vec<u8>, MediaError>::Err(MediaError::InvalidArgument),
            square_size > 0 ==> (r matches Ok(b) && b@ == checker_buffer(
                self.spec_width() as int,
                self.spec_height() as int,
                square_size as int,
            )),
    {
        if square_size == 0 {
            return Err(MediaError::InvalidArgument);
        }
        let w = self.width;
        let h = self.height;
        let s = square_size;
        let ghost gw = w as int;
        let ghost gh = h as int;
        let ghost gs = s as int;
        let ghost target = checker_buffer(gw, gh, gs);
        let mut data: Vec<u8> = Vec::new();
        let mut y: u32 = 0;
        while y < h
            invariant
                w == self.spec_width(),
                h == self.spec_height(),
                self.fits(),
                s > 0,
                gw == w as int,
                gh == h as int,
                gs == s as int,
                target == checker_buffer(gw, gh, gs),
                y <= h,
                data@.len() == 4 * ((y as int) * gw),
                data@ == target.take(data@.len() as int),
            decreases h - y,
        {
            let mut x: u32 = 0;
            while x < w
                invariant
                    w == self.spec_width(),
                    h == self.spec_height(),
                    self.fits(),
                    s > 0,
                    gw == w as int,
                    gh == h as int,
                    gs == s as int,
                    target == checker_buffer(gw, gh, gs),
                    y < h,
                    x <= w,
                    data@.len() == 4 * ((y as int) * gw + (x as int)),
                    data@ == target.take(data@.len() as int),
                decreases w - x,
            {
                let cell = ((x as u64) / (s as u64) + (y as u64) / (s as u64)) % 2;
                let color: u8 = if cell == 0 {
                    255u8
                } else {
                    0u8
                };
                data.push(color);
                data.push(color);
                data.push(color);
                data.push(255u8);
                proof {
                    let xi = x as int;
                    let yi = y as int;
                    let p = yi * gw + xi;
                    lemma_pixel_coords(gw, gh, xi, yi);
                    lemma_byte_index(p, 0);
                    lemma_byte_index(p, 1);
                    lemma_byte_index(p, 2);
                    lemma_byte_index(p, 3);
                    assert(target[4 * p + 0] == color);
                    assert(target[4 * p + 1] == color);
                    assert(target[4 * p + 2] == color);
                    assert(target[4 * p + 3] == 255u8);
                    assert(data@ =~= target.take((4 * p + 4) as int));
                }
                x = x + 1;
            }
            proof {
                assert(((y as int) + 1) * gw == (y as int) * gw + gw) by (nonlinear_arith);
            }
            y = y + 1;
        }
        proof {
            assert(gw * gh * 4 == 4 * (gh * gw)) by (nonlinear_arith);
            assert(data@ =~= target);
        }
        Ok(data)
    }

    /// Assembles the plasma RGBA buffer from one already-computed channel value
    /// per pixel. The channel values are a pure function of pixel position and
    /// time in the sampled plasma field; this assembly is a pure function of
    /// the channel values, so the whole buffer is deterministic in its inputs.
    pub fn plasma_from_channels(&self, channels: &Vec<u8>) -> (r: Vec<u8>)
        requires
            self.fits(),
            channels@.len() == self.spec_width() * self.spec_height(),
        ensures
            r@ == plasma_buffer(channels@),
    {
        let ghost target = plasma_buffer(channels@);
        let n = channels.len();
        let mut data: Vec<u8> = Vec::new();
        let mut p: usize = 0;
        while p < n
            invariant
                n == channels@.len(),
                4 * n <= usize::MAX,
                target == plasma_buffer(channels@),
                p <= n,
                data@.len() == 4 * (p as int),
                data@ == target.take(data@.len() as int),
            decreases n - p,
        {
            let c = channels[p];
            data.push(c);
            data.push(c);
            data.push(255u8 - c);
            data.push(255u8);
            proof {
                let pi = p as int;
                lemma_byte_index(pi, 0);
                lemma_byte_index(pi, 1);
                lemma_byte_index(pi, 2);
                lemma_byte_index(pi, 3);
                assert(data@ =~= target.take((4 * pi + 4) as int));
            }
            p = p + 1;
        }
        proof {
            assert(data@ =~= target);
        }
        data
    }
}

/// Law: gradient red is non-decreasing in `x` along a row, gradient green is
/// non-decreasing in `y` along a column, and blue and alpha are constant at
/// 128 and 255.
pub proof fn lemma_gradient_monotone(w: int, h: int, x1: int, x2: int, y1: int, y2: int)
    requires
        0 <= x1 <= x2 < w,
        0 <= y1 <= y2 < h,
    ensures
        gradient_buffer(w, h)[4 * (y1 * w + x1)] <= gradient_buffer(w, h)[4 * (y1 * w + x2)],
        gradient_buffer(w, h)[4 * (y1 * w + x1) + 1] <= gradient_buffer(w, h)[4 * (y2 * w + x1)
            + 1],
        gradient_buffer(w, h)[4 * (y1 * w + x1) + 2] == 128u8,
        gradient_buffer(w, h)[4 * (y1 * w + x1) + 3] == 255u8,
{
    lemma_pixel_coords(w, h, x1, y1);
    lemma_pixel_coords(w, h, x2, y1);
    lemma_pixel_coords(w, h, x1, y2);
    lemma_byte_index(y1 * w + x1, 0);
    lemma_byte_index(y1 * w + x2, 0);
    lemma_byte_index(y1 * w + x1, 1);
    lemma_byte_index(y2 * w + x1, 1);
    lemma_byte_index(y1 * w + x1, 2);
    lemma_byte_index(y1 * w + x1, 3);
    lemma_div_is_ordered(x1 * 255, x2 * 255, w);
    lemma_div_is_ordered(y1 * 255, y2 * 255, h);
    lemma_div_pos_is_pos(x1 * 255, w);
    lemma_div_pos_is_pos(y1 * 255, h);
    lemma_channel_value_small(w, x1);
    lemma_channel_value_small(w, x2);
    lemma_channel_value_small(h, y1);
    lemma_channel_value_small(h, y2);
}

/// A gradient channel value `(v * 255) / d` with `0 <= v < d` lies below 255,
/// so casting it to `u8` keeps its order.
proof fn lemma_channel_value_small(d: int, v: int)
    requires
        0 <= v < d,
    ensures
        0 <= (v * 255) / d < 255,
{
    lemma_div_pos_is_pos(v * 255, d);
    assert(v * 255 < d * 255) by (nonlinear_arith)
        requires
            0 <= v < d,
    ;
    lemma_multiply_divide_lt(v * 255, d, 255);
}

/// Law: with square size 1 the checkerboard alternates between horizontally
/// adjacent pixels and between vertically adjacent pixels.
pub proof fn lemma_checkerboard_alternates(w: int, h: int, x: int, y: int)
    requires
        0 <= x,
        0 <= y,
        x + 1 < w,
        y + 1 < h,
    ensures
        checker_buffer(w, h, 1)[4 * (y * w + x)] != checker_buffer(w, h, 1)[4 * (y * w + x + 1)],
        checker_buffer(w, h, 1)[4 * (y * w + x)] != checker_buffer(w, h, 1)[4 * ((y + 1) * w + x)],
{
    lemma_pixel_coords(w, h, x, y);
    lemma_pixel_coords(w, h, x + 1, y);
    lemma_pixel_coords(w, h, x, y + 1);
    lemma_byte_index(y * w + x, 0);
    lemma_byte_index(y * w + x + 1, 0);
    lemma_byte_index((y + 1) * w + x, 0);
}

/// Law: the plasma buffer is a pure function of the channel values, so two
/// buffers assembled from identical channel values are byte-identical.
pub proof fn lemma_plasma_deterministic(ch: Seq<u8>, a: Seq<u8>, b: Seq<u8>)
    requires
        a == plasma_buffer(ch),
        b == plasma_buffer(ch),
    ensures
        a == b,
{
}

} // verus!
