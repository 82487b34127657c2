//! Vertices, colours and triangles, and the integer arithmetic of differential mutation.

use crate::random::{random_below, random_byte};
use vstd::arithmetic::div_mod::lemma_fundamental_div_mod;
use vstd::prelude::*;

verus! {

/// Smallest alpha a drawn triangle may carry.
pub const MIN_ALPHA: u8 = 50;

/// Largest alpha a drawn triangle may carry.
pub const MAX_ALPHA: u8 = 130;

/// Bound on the components of a difference of two triangles (coordinates are `u32`).
pub const DIFF_BOUND: i128 = 0x1_0000_0000;

/// Bound on the components of a scaled difference.
pub const SCALED_BOUND: i128 = 0x1_0000_0000_0000_0000;

/// A pixel coordinate.
#[derive(Clone, Copy, Debug, PartialEq, Eq, Structural)]
pub struct Vertex {
    pub x: u32,
    pub y: u32,
}

/// An RGBA colour with 8-bit channels.
#[derive(Clone, Copy, Debug, PartialEq, Eq, Structural)]
pub struct Color {
    pub r: u8,
    pub g: u8,
    pub b: u8,
    pub a: u8,
}

/// A filled triangle with a translucent colour.
#[derive(Clone, Copy, Debug, PartialEq, Eq, Structural)]
pub struct Triangle {
    pub vertex1: Vertex,
    pub vertex2: Vertex,
    pub vertex3: Vertex,
    pub color: Color,
}

/// The scaling factor of differential mutation, as the fraction `numer / denom`.
#[derive(Clone, Copy, Debug, PartialEq, Eq, Structural)]
pub struct Scale {
    pub numer: u32,
    pub denom: u32,
}

/// Signed intermediate result of triangle arithmetic, one field per component:
/// the three vertices' coordinates, then the four colour channels.
#[derive(Clone, Copy, Debug, PartialEq, Eq, Structural)]
pub struct TriangleDelta {
    pub x1: i128,
    pub y1: i128,
    pub x2: i128,
    pub y2: i128,
    pub x3: i128,
    pub y3: i128,
    pub r: i128,
    pub g: i128,
    pub b: i128,
    pub a: i128,
}

/// `v` multiplied by the scale, truncated toward zero.
pub open spec fn scaled(v: int, s: Scale) -> int {
    if v >= 0 {
        v * s.numer / (s.denom as int)
    } else {
        -((-v) * s.numer / (s.denom as int))
    }
}

pub open spec fn clamped(v: int, lo: int, hi: int) -> int {
    if v < lo {
        lo
    } else if v > hi {
        hi
    } else {
        v
    }
}

/// One component of `a + F·(b − c)`, clamped into `lo..=hi`.
pub open spec fn mutated(a: int, b: int, c: int, s: Scale, lo: int, hi: int) -> int {
    clamped(a + scaled(b - c, s), lo, hi)
}

pub open spec fn delta_within(d: TriangleDelta, bound: int) -> bool {
    &&& -bound <= d.x1 <= bound
    &&& -bound <= d.y1 <= bound
    &&& -bound <= d.x2 <= bound
    &&& -bound <= d.y2 <= bound
    &&& -bound <= d.x3 <= bound
    &&& -bound <= d.y3 <= bound
    &&& -bound <= d.r <= bound
    &&& -bound <= d.g <= bound
    &&& -bound <= d.b <= bound
    &&& -bound <= d.a <= bound
}

/// The triangle lies in a `width` × `height` image and its alpha in the allowed range.
pub open spec fn triangle_in_bounds(t: Triangle, width: int, height: int) -> bool {
    &&& t.vertex1.x < width && t.vertex1.y < height
    &&& t.vertex2.x < width && t.vertex2.y < height
    &&& t.vertex3.x < width && t.vertex3.y < height
    &&& MIN_ALPHA <= t.color.a <= MAX_ALPHA
}

/// The three vertices are pairwise distinct.
pub open spec fn distinct_vertices(t: Triangle) -> bool {
    &&& t.vertex1 != t.vertex2
    &&& t.vertex1 != t.vertex3
    &&& t.vertex2 != t.vertex3
}

/// The triangle `t1 + F·(t2 − t3)`, every component clamped into its range.
pub open spec fn mutant_triangle(t1: Triangle, t2: Triangle, t3: Triangle, s: Scale, width: int, height: int) -> Triangle {
    Triangle {
        vertex1: Vertex {
            x: mutated(t1.vertex1.x as int, t2.vertex1.x as int, t3.vertex1.x as int, s, 0, width - 1) as u32,
            y: mutated(t1.vertex1.y as int, t2.vertex1.y as int, t3.vertex1.y as int, s, 0, height - 1) as u32,
        },
        vertex2: Vertex {
            x: mutated(t1.vertex2.x as int, t2.vertex2.x as int, t3.vertex2.x as int, s, 0, width - 1) as u32,
            y: mutated(t1.vertex2.y as int, t2.vertex2.y as int, t3.vertex2.y as int, s, 0, height - 1) as u32,
        },
        vertex3: Vertex {
            x: mutated(t1.vertex3.x as int, t2.vertex3.x as int, t3.vertex3.x as int, s, 0, width - 1) as u32,
            y: mutated(t1.vertex3.y as int, t2.vertex3.y as int, t3.vertex3.y as int, s, 0, height - 1) as u32,
        },
        color: Color {
            r: mutated(t1.color.r as int, t2.color.r as int, t3.color.r as int, s, 0, 255) as u8,
            g: mutated(t1.color.g as int, t2.color.g as int, t3.color.g as int, s, 0, 255) as u8,
            b: mutated(t1.color.b as int, t2.color.b as int, t3.color.b as int, s, 0, 255) as u8,
            a: mutated(t1.color.a as int, t2.color.a as int, t3.color.a as int, s, MIN_ALPHA as int, MAX_ALPHA as int) as u8,
        },
    }
}

fn scale_component(v: i128, s: Scale) -> (r: i128)
    requires
        s.denom > 0,
        -DIFF_BOUND <= v <= DIFF_BOUND,
    ensures
        r == scaled(v as int, s),
        -SCALED_BOUND <= r <= SCALED_BOUND,
{
    let n = s.numer as u128;
    let d = s.denom as u128;
    if v >= 0 {
        let m = v as u128;
        assert(m * n <= 0x1_0000_0000u128 * 0xffff_ffffu128) by (nonlinear_arith)
            requires
                m <= 0x1_0000_0000u128,
                n <= 0xffff_ffffu128,
        ;
        let q = (m * n) / d;
        assert(q <= m * n) by (nonlinear_arith)
            requires
                d >= 1,
                q as int == (m * n) as int / (d as int),
        ;
        q as i128
    } else {
        let m = (-v) as u128;
        assert(m * n <= 0x1_0000_0000u128 * 0xffff_ffffu128) by (nonlinear_arith)
            requires
                m <= 0x1_0000_0000u128,
                n <= 0xffff_ffffu128,
        ;
        let q = (m * n) / d;
        assert(q <= m * n) by (nonlinear_arith)
            requires
                d >= 1,
                q as int == (m * n) as int / (d as int),
        ;
        -(q as i128)
    }
}

fn clamp_component(v: i128, lo: u32, hi: u32) -> (r: u32)
    requires
        lo <= hi,
    ensures
        r == clamped(v as int, lo as int, hi as int),
{
    if v < lo as i128 {
        lo
    } else if v > hi as i128 {
        hi
    } else {
        v as u32
    }
}

impl Triangle {
    /// A random triangle inside a `width` × `height` image: three distinct vertices, each
    /// drawn uniformly among the pixels not yet taken, random colour channels and an alpha
    /// in `MIN_ALPHA..MAX_ALPHA`.
    pub fn generate_random_triangle(width: u32, height: u32) -> (t: Triangle)
        requires
            width as int * height as int >= 3,
        ensures
            triangle_in_bounds(t, width as int, height as int),
            t.color.a < MAX_ALPHA,
            t.vertex1 != t.vertex2,
            t.vertex1 != t.vertex3,
            t.vertex2 != t.vertex3,
    {
        assert(width as u64 * height as u64 <= 0xffff_ffffu64 * 0xffff_ffffu64) by (nonlinear_arith);
        let n: u64 = width as u64 * height as u64;
        let i1 = random_below(0, n);
        let j2 = random_below(0, n - 1);
        let i2 = if j2 >= i1 { j2 + 1 } else { j2 };
        let lo = if i1 < i2 { i1 } else { i2 };
        let hi = if i1 < i2 { i2 } else { i1 };
        let mut i3 = random_below(0, n - 2);
        if i3 >= lo {
            i3 = i3 + 1;
        }
        if i3 >= hi {
            i3 = i3 + 1;
        }
        let vertex1 = vertex_at(i1, width, height);
        let vertex2 = vertex_at(i2, width, height);
        let vertex3 = vertex_at(i3, width, height);
        let alpha = random_below(MIN_ALPHA as u64, MAX_ALPHA as u64);
        let color = Color { r: random_byte(), g: random_byte(), b: random_byte(), a: alpha as u8 };
        Triangle { vertex1, vertex2, vertex3, color }
    }

    /// `t1 − t2`, component by component.
    pub fn difference_between_triangles(t1: &Triangle, t2: &Triangle) -> (d: TriangleDelta)
        ensures
            d.x1 == t1.vertex1.x - t2.vertex1.x,
            d.y1 == t1.vertex1.y - t2.vertex1.y,
            d.x2 == t1.vertex2.x - t2.vertex2.x,
            d.y2 == t1.vertex2.y - t2.vertex2.y,
            d.x3 == t1.vertex3.x - t2.vertex3.x,
            d.y3 == t1.vertex3.y - t2.vertex3.y,
            d.r == t1.color.r - t2.color.r,
            d.g == t1.color.g - t2.color.g,
            d.b == t1.color.b - t2.color.b,
            d.a == t1.color.a - t2.color.a,
            delta_within(d, DIFF_BOUND as int),
    {
        TriangleDelta {
            x1: t1.vertex1.x as i128 - t2.vertex1.x as i128,
            y1: t1.vertex1.y as i128 - t2.vertex1.y as i128,
            x2: t1.vertex2.x as i128 - t2.vertex2.x as i128,
            y2: t1.vertex2.y as i128 - t2.vertex2.y as i128,
            x3: t1.vertex3.x as i128 - t2.vertex3.x as i128,
            y3: t1.vertex3.y as i128 - t2.vertex3.y as i128,
            r: t1.color.r as i128 - t2.color.r as i128,
            g: t1.color.g as i128 - t2.color.g as i128,
            b: t1.color.b as i128 - t2.color.b as i128,
            a: t1.color.a as i128 - t2.color.a as i128,
        }
    }

    /// `t1 + d`, component by component.
    pub fn sum_triangles(t1: &Triangle, d: &TriangleDelta) -> (r: TriangleDelta)
        requires
            delta_within(*d, SCALED_BOUND as int),
        ensures
            r.x1 == t1.vertex1.x + d.x1,
            r.y1 == t1.vertex1.y + d.y1,
            r.x2 == t1.vertex2.x + d.x2,
            r.y2 == t1.vertex2.y + d.y2,
            r.x3 == t1.vertex3.x + d.x3,
            r.y3 == t1.vertex3.y + d.y3,
            r.r == t1.color.r + d.r,
            r.g == t1.color.g + d.g,
            r.b == t1.color.b + d.b,
            r.a == t1.color.a + d.a,
    {
        TriangleDelta {
            x1: t1.vertex1.x as i128 + d.x1,
            y1: t1.vertex1.y as i128 + d.y1,
            x2: t1.vertex2.x as i128 + d.x2,
            y2: t1.vertex2.y as i128 + d.y2,
            x3: t1.vertex3.x as i128 + d.x3,
            y3: t1.vertex3.y as i128 + d.y3,
            r: t1.color.r as i128 + d.r,
            g: t1.color.g as i128 + d.g,
            b: t1.color.b as i128 + d.b,
            a: t1.color.a as i128 + d.a,
        }
    }

    /// Multiplies every component by the scaling factor, truncating toward zero.
    pub fn apply_scaling_factor_in_triangle(t: &mut TriangleDelta, s: Scale)
        requires
            s.denom > 0,
            delta_within(*old(t), DIFF_BOUND as int),
        ensures
            final(t).x1 == scaled(old(t).x1 as int, s),
            final(t).y1 == scaled(old(t).y1 as int, s),
            final(t).x2 == scaled(old(t).x2 as int, s),
            final(t).y2 == scaled(old(t).y2 as int, s),
            final(t).x3 == scaled(old(t).x3 as int, s),
            final(t).y3 == scaled(old(t).y3 as int, s),
            final(t).r == scaled(old(t).r as int, s),
            final(t).g == scaled(old(t).g as int, s),
            final(t).b == scaled(old(t).b as int, s),
            final(t).a == scaled(old(t).a as int, s),
            delta_within(*final(t), SCALED_BOUND as int),
    {
        t.x1 = scale_component(t.x1, s);
        t.y1 = scale_component(t.y1, s);
        t.x2 = scale_component(t.x2, s);
        t.y2 = scale_component(t.y2, s);
        t.x3 = scale_component(t.x3, s);
        t.y3 = scale_component(t.y3, s);
        t.r = scale_component(t.r, s);
        t.g = scale_component(t.g, s);
        t.b = scale_component(t.b, s);
        t.a = scale_component(t.a, s);
    }

    /// Clamps every component into its range: coordinates into the `width` × `height`
    /// image, colour channels into `0..=255`, alpha into `MIN_ALPHA..=MAX_ALPHA`.
    pub fn clamp_triangle(d: &TriangleDelta, width: u32, height: u32) -> (t: Triangle)
        requires
            width > 0,
            height > 0,
        ensures
            t.vertex1.x == clamped(d.x1 as int, 0, width - 1),
            t.vertex1.y == clamped(d.y1 as int, 0, height - 1),
            t.vertex2.x == clamped(d.x2 as int, 0, width - 1),
            t.vertex2.y == clamped(d.y2 as int, 0, height - 1),
            t.vertex3.x == clamped(d.x3 as int, 0, width - 1),
            t.vertex3.y == clamped(d.y3 as int, 0, height - 1),
            t.color.r == clamped(d.r as int, 0, 255),
            t.color.g == clamped(d.g as int, 0, 255),
            t.color.b == clamped(d.b as int, 0, 255),
            t.color.a == clamped(d.a as int, MIN_ALPHA as int, MAX_ALPHA as int),
            triangle_in_bounds(t, width as int, height as int),
    {
        Triangle {
            vertex1: Vertex { x: clamp_component(d.x1, 0, width - 1), y: clamp_component(d.y1, 0, height - 1) },
            vertex2: Vertex { x: clamp_component(d.x2, 0, width - 1), y: clamp_component(d.y2, 0, height - 1) },
            vertex3: Vertex { x: clamp_component(d.x3, 0, width - 1), y: clamp_component(d.y3, 0, height - 1) },
            color: Color {
                r: clamp_component(d.r, 0, 255) as u8,
                g: clamp_component(d.g, 0, 255) as u8,
                b: clamp_component(d.b, 0, 255) as u8,
                a: clamp_component(d.a, MIN_ALPHA as u32, MAX_ALPHA as u32) as u8,
            },
        }
    }

    /// The mutant triangle `t1 + F·(t2 − t3)`, clamped.
    pub fn mutate(t1: &Triangle, t2: &Triangle, t3: &Triangle, s: Scale, width: u32, height: u32) -> (t: Triangle)
        requires
            s.denom > 0,
            width > 0,
            height > 0,
        ensures
            t == mutant_triangle(*t1, *t2, *t3, s, width as int, height as int),
            triangle_in_bounds(t, width as int, height as int),
    {
        let mut d = Triangle::difference_between_triangles(t2, t3);
        Triangle::apply_scaling_factor_in_triangle(&mut d, s);
        let sum = Triangle::sum_triangles(t1, &d);
        Triangle::clamp_triangle(&sum, width, height)
    }
}

/// The pixel with row-major index `i` in an image `width` pixels wide.
fn vertex_at(i: u64, width: u32, height: u32) -> (v: Vertex)
    requires
        width > 0,
        i < width as int * height as int,
    ensures
        v.x < width,
        v.y < height,
        i == v.y as int * width as int + v.x as int,
{
    let w = width as u64;
    let x = i % w;
    let y = i / w;
    proof {
        lemma_fundamental_div_mod(i as int, w as int);
        assert(y < height) by (nonlinear_arith)
            requires
                i == w * y + x,
                x >= 0,
                i < w * height,
                w > 0,
        ;
        assert(w * y == y * w) by (nonlinear_arith);
    }
    Vertex { x: x as u32, y: y as u32 }
}

} // verus!
