//! RGBA pixel buffers and alpha compositing.

use crate::geometry::Color;
use vstd::arithmetic::div_mod::{lemma_fundamental_div_mod, lemma_fundamental_div_mod_converse};
use vstd::prelude::*;

verus! {

/// Most pixels an image may hold.
pub const MAX_PIXELS: u64 = 0xffff_ffff;

/// A row-major RGBA image.
#[derive(Clone, Debug)]
pub struct Image {
    pub width: u32,
    pub height: u32,
    pub pixels: Vec<Color>,
}

pub open spec fn transparent() -> Color {
    Color { r: 0, g: 0, b: 0, a: 0 }
}

/// `src` composited over `dst`: each colour channel `(src·α + dst·(255 − α)) / 255` and
/// the alpha `α + dst_α·(255 − α) / 255`, where `α` is the source alpha, truncated.
pub open spec fn blend(dst: Color, src: Color) -> Color {
    let a = src.a as int;
    Color {
        r: ((src.r * a + dst.r * (255 - a)) / 255) as u8,
        g: ((src.g * a + dst.g * (255 - a)) / 255) as u8,
        b: ((src.b * a + dst.b * (255 - a)) / 255) as u8,
        a: (a + dst.a * (255 - a) / 255) as u8,
    }
}

/// `src` composited `k` times over `dst`.
pub open spec fn blend_times(dst: Color, src: Color, k: nat) -> Color
    decreases k,
{
    if k == 0 {
        dst
    } else {
        blend(blend_times(dst, src, (k - 1) as nat), src)
    }
}

impl Image {
    pub open spec fn wf(&self) -> bool {
        &&& self.pixels@.len() == self.width as int * self.height as int
        &&& self.pixels@.len() <= MAX_PIXELS
    }

    /// A fully transparent `width` × `height` image.
    pub fn new(width: u32, height: u32) -> (img: Image)
        requires
            width as int * height as int <= MAX_PIXELS,
        ensures
            img.wf(),
            img.width == width,
            img.height == height,
            img.pixels@ == Seq::new((width * height) as nat, |i: int| transparent()),
    {
        let n = width as u64 * height as u64;
        let mut pixels: Vec<Color> = Vec::new();
        let mut i: u64 = 0;
        while i < n
            invariant
                i <= n,
                n == width as int * height as int,
                pixels@ == Seq::new(i as nat, |k: int| transparent()),
            decreases n - i,
        {
            pixels.push(Color { r: 0, g: 0, b: 0, a: 0 });
            i = i + 1;
        }
        Image { width, height, pixels }
    }
}

/// Row-major indices: `y·width + x` lies in the image, and its quotient and remainder by
/// the width give back the row and the column.
pub proof fn lemma_pixel_index(width: int, height: int, x: int, y: int)
    requires
        0 <= x < width,
        0 <= y < height,
    ensures
        0 <= y * width + x < width * height,
        (y * width + x) / width == y,
        (y * width + x) % width == x,
{
    lemma_fundamental_div_mod_converse(y * width + x, width, y, x);
    assert(0 <= y * width + x < width * height) by (nonlinear_arith)
        requires
            0 <= x < width,
            0 <= y < height,
    ;
}

/// Every index of an image is `row·width + column`, with both in range.
pub proof fn lemma_index_split(width: int, height: int, i: int)
    requires
        width > 0,
        0 <= i < width * height,
    ensures
        i == (i / width) * width + i % width,
        0 <= i % width < width,
        0 <= i / width < height,
{
    lemma_fundamental_div_mod(i, width);
    let q = i / width;
    let r = i % width;
    assert(q * width == width * q) by (nonlinear_arith);
    assert(0 <= q < height) by (nonlinear_arith)
        requires
            i == width * q + r,
            0 <= r < width,
            0 <= i < width * height,
    ;
}

/// Composites `src` over `dst` (see `blend`).
pub fn blend_pixel(dst: Color, src: Color) -> (c: Color)
    ensures
        c == blend(dst, src),
{
    let a = src.a as u32;
    let inv = 255 - a;
    proof {
        lemma_channel_bound(src.r as int, dst.r as int, a as int);
        lemma_channel_bound(src.g as int, dst.g as int, a as int);
        lemma_channel_bound(src.b as int, dst.b as int, a as int);
        lemma_channel_bound(255, dst.a as int, a as int);
        assert(dst.a as int * (255 - a) <= 255 * 255) by (nonlinear_arith)
            requires
                0 <= dst.a <= 255,
                0 <= a <= 255,
        ;
        assert(a + dst.a * (255 - a) / 255 <= 255) by (nonlinear_arith)
            requires
                0 <= dst.a <= 255,
                0 <= a <= 255,
        ;
    }
    let r = (src.r as u32 * a + dst.r as u32 * inv) / 255;
    let g = (src.g as u32 * a + dst.g as u32 * inv) / 255;
    let b = (src.b as u32 * a + dst.b as u32 * inv) / 255;
    let out_a = a + (dst.a as u32 * inv) / 255;
    Color { r: r as u8, g: g as u8, b: b as u8, a: out_a as u8 }
}

proof fn lemma_channel_bound(s: int, d: int, a: int)
    requires
        0 <= s <= 255,
        0 <= d <= 255,
        0 <= a <= 255,
    ensures
        0 <= s * a + d * (255 - a) <= 255 * 255,
        0 <= (s * a + d * (255 - a)) / 255 <= 255,
{
    assert(0 <= s * a + d * (255 - a) <= 255 * 255) by (nonlinear_arith)
        requires
            0 <= s <= 255,
            0 <= d <= 255,
            0 <= a <= 255,
    ;
}

/// Compositing a fully opaque colour leaves exactly its colour channels, whatever lies
/// beneath.
pub proof fn lemma_opaque_blend_keeps_source(dst: Color, src: Color)
    requires
        src.a == 255,
    ensures
        blend(dst, src).r == src.r,
        blend(dst, src).g == src.g,
        blend(dst, src).b == src.b,
{
    assert((src.r * 255 + dst.r * 0) / 255 == src.r) by (nonlinear_arith);
    assert((src.g * 255 + dst.g * 0) / 255 == src.g) by (nonlinear_arith);
    assert((src.b * 255 + dst.b * 0) / 255 == src.b) by (nonlinear_arith);
}

} // verus!
