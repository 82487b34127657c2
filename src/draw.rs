//! Scanline rasterisation of triangles and rendering of whole candidates.

use crate::canvas::{blend, blend_pixel, blend_times, lemma_index_split, lemma_pixel_index, transparent, Image, MAX_PIXELS};
use crate::geometry::{Color, Triangle, Vertex};
use crate::vector::Vector;
use rayon::iter::ParallelIterator;
use rayon::slice::ParallelSlice;
use vstd::prelude::*;

verus! {

/// The vertices ordered by `y` through three conditional swaps (first/second,
/// first/third, second/third), each made only when the upper one lies strictly lower.
pub open spec fn sorted_vertices(t: Triangle) -> (Vertex, Vertex, Vertex) {
    let a1 = if t.vertex1.y > t.vertex2.y { t.vertex2 } else { t.vertex1 };
    let a2 = if t.vertex1.y > t.vertex2.y { t.vertex1 } else { t.vertex2 };
    let b1 = if a1.y > t.vertex3.y { t.vertex3 } else { a1 };
    let b3 = if a1.y > t.vertex3.y { a1 } else { t.vertex3 };
    let c2 = if a2.y > b3.y { b3 } else { a2 };
    let c3 = if a2.y > b3.y { a2 } else { b3 };
    (b1, c2, c3)
}

/// The `x` of the edge from `(xa, ya)` to `(xb, yb)` at row `y`, rounded down; a
/// horizontal edge gives `xa`.
pub open spec fn edge_x(y: int, ya: int, yb: int, xa: int, xb: int) -> int {
    if ya == yb {
        xa
    } else {
        (xa * (yb - y) + xb * (y - ya)) / (yb - ya)
    }
}

pub open spec fn min_int(a: int, b: int) -> int {
    if a <= b { a } else { b }
}

pub open spec fn max_int(a: int, b: int) -> int {
    if a >= b { a } else { b }
}

/// Pixel `(x, y)` lies on the scanline of rows `ya..=yb` whose ends are the edge `e1`
/// (from `(e1xa, e1ya)` to `(e1xb, e1yb)`) and the edge `e2`, the right end cut at the
/// image's last column.
pub open spec fn span_covers(
    x: int,
    y: int,
    ya: int,
    yb: int,
    e1: (int, int, int, int),
    e2: (int, int, int, int),
    width: int,
) -> bool {
    let f1 = edge_x(y, e1.0, e1.1, e1.2, e1.3);
    let f2 = edge_x(y, e2.0, e2.1, e2.2, e2.3);
    &&& ya <= y <= yb
    &&& min_int(f1, f2) <= x <= min_int(max_int(f1, f2), width - 1)
}

/// The long edge from the top vertex to the bottom one.
pub open spec fn long_edge(t: Triangle) -> (int, int, int, int) {
    let (top, mid, bottom) = sorted_vertices(t);
    (top.y as int, bottom.y as int, top.x as int, bottom.x as int)
}

pub open spec fn upper_covers(t: Triangle, x: int, y: int, width: int) -> bool {
    let (top, mid, bottom) = sorted_vertices(t);
    span_covers(x, y, top.y as int, mid.y as int, long_edge(t), (top.y as int, mid.y as int, top.x as int, mid.x as int), width)
}

pub open spec fn lower_covers(t: Triangle, x: int, y: int, width: int) -> bool {
    let (top, mid, bottom) = sorted_vertices(t);
    span_covers(x, y, mid.y as int, bottom.y as int, long_edge(t), (mid.y as int, bottom.y as int, mid.x as int, bottom.x as int), width)
}

/// How often the triangle composites over pixel `(x, y)`: once for the upper part (top to
/// middle vertex) and once for the lower part (middle to bottom vertex), so the middle
/// vertex's row may be covered twice.
pub open spec fn cover_count(t: Triangle, x: int, y: int, width: int) -> nat {
    (if upper_covers(t, x, y, width) { 1nat } else { 0nat }) + (if lower_covers(t, x, y, width) { 1nat } else { 0nat })
}

/// `pixels` (an image `width` wide) with the triangle composited over it.
pub open spec fn paint(pixels: Seq<Color>, t: Triangle, width: int) -> Seq<Color> {
    Seq::new(pixels.len(), |i: int| blend_times(pixels[i], t.color, cover_count(t, i % width, i / width, width)))
}

/// The image of the triangles composited in order over a transparent canvas.
pub open spec fn render(triangles: Seq<Triangle>, width: int, height: int) -> Seq<Color>
    decreases triangles.len(),
{
    if triangles.len() == 0 {
        Seq::new((width * height) as nat, |i: int| transparent())
    } else {
        paint(render(triangles.drop_last(), width, height), triangles.last(), width)
    }
}

/// Pixels of `pixels` covered by a scanline region (rows `ya..=yb`) are composited once.
pub open spec fn paint_region(
    pixels: Seq<Color>,
    color: Color,
    ya: int,
    yb: int,
    e1: (int, int, int, int),
    e2: (int, int, int, int),
    width: int,
) -> Seq<Color> {
    Seq::new(
        pixels.len(),
        |i: int|
            if span_covers(i % width, i / width, ya, yb, e1, e2, width) {
                blend(pixels[i], color)
            } else {
                pixels[i]
            },
    )
}

/// Composites `color` over pixels `lo..=hi` of row `y`.
fn draw_span(image: &mut Image, y: u32, lo: u32, hi: u32, color: Color)
    requires
        old(image).wf(),
        y < old(image).height,
        lo <= hi < old(image).width,
    ensures
        final(image).wf(),
        final(image).width == old(image).width,
        final(image).height == old(image).height,
        final(image).pixels@ == Seq::new(
            old(image).pixels@.len(),
            |i: int|
                if i / (old(image).width as int) == y && lo <= i % (old(image).width as int) <= hi {
                    blend(old(image).pixels@[i], color)
                } else {
                    old(image).pixels@[i]
                },
        ),
{
    let w = image.width;
    let ghost h = image.height as int;
    let ghost orig = image.pixels@;
    let mut x: u32 = lo;
    while x <= hi
        invariant
            image.wf(),
            image.width == w,
            image.height == h,
            y < h,
            hi < w,
            lo <= x <= hi + 1,
            orig.len() == image.pixels@.len(),
            forall|i: int|
                0 <= i < orig.len() ==> image.pixels@[i] == if i / (w as int) == y && lo <= i % (w as int) < x {
                    blend(orig[i], color)
                } else {
                    orig[i]
                },
        decreases hi + 1 - x,
    {
        proof {
            lemma_pixel_index(w as int, h, x as int, y as int);
        }
        let idx = y as usize * w as usize + x as usize;
        let c = blend_pixel(image.pixels[idx], color);
        let ghost before = image.pixels@;
        image.pixels.set(idx, c);
        proof {
            assert forall|i: int| 0 <= i < orig.len() implies #[trigger] image.pixels@[i] == if i / (w as int) == y && lo <= i % (w as int) < x + 1 {
                blend(orig[i], color)
            } else {
                orig[i]
            } by {
                lemma_index_split(w as int, h, i);
                if i != idx {
                    assert(image.pixels@[i] == before[i]);
                }
            }
        }
        x = x + 1;
    }
    assert(image.pixels@ =~= Seq::new(
        orig.len(),
        |i: int|
            if i / (w as int) == y && lo <= i % (w as int) <= hi {
                blend(orig[i], color)
            } else {
                orig[i]
            },
    ));
}

/// The edge's `x` at row `y`, rounded down (see `edge_x`).
fn interpolate(y: u32, ya: u32, yb: u32, xa: u32, xb: u32) -> (r: u32)
    requires
        ya <= y <= yb,
    ensures
        r == edge_x(y as int, ya as int, yb as int, xa as int, xb as int),
{
    if ya == yb {
        xa
    } else {
        proof {
            lemma_mul_below(xa as int, (yb - y) as int);
            lemma_mul_below(xb as int, (y - ya) as int);
        }
        let num = xa as u128 * (yb - y) as u128 + xb as u128 * (y - ya) as u128;
        let den = (yb - ya) as u128;
        proof {
            let m = if xa >= xb { xa as int } else { xb as int };
            assert(xa as int * (yb - y) + xb as int * (y - ya) <= m * (yb - ya)) by (nonlinear_arith)
                requires
                    ya <= y <= yb,
                    xa <= m,
                    xb <= m,
            ;
            assert((xa as int * (yb - y) + xb as int * (y - ya)) / ((yb - ya) as int) <= m) by (nonlinear_arith)
                requires
                    xa as int * (yb - y) + xb as int * (y - ya) <= m * (yb - ya),
                    xa as int * (yb - y) + xb as int * (y - ya) >= 0,
                    yb - ya > 0,
            ;
            assert(xa as int * (yb - y) + xb as int * (y - ya) >= 0) by (nonlinear_arith)
                requires
                    ya <= y <= yb,
            ;
        }
        (num / den) as u32
    }
}

/// Composites `color` once over every pixel of the scanline region of rows `ya..=yb`
/// whose ends are the edges `e1` and `e2` (see `span_covers`).
fn draw_region(image: &mut Image, ya: u32, yb: u32, e1: (u32, u32, u32, u32), e2: (u32, u32, u32, u32), color: Color)
    requires
        old(image).wf(),
        old(image).width > 0,
        e1.0 <= ya,
        yb <= e1.1,
        e2.0 <= ya,
        yb <= e2.1,
    ensures
        final(image).wf(),
        final(image).width == old(image).width,
        final(image).height == old(image).height,
        final(image).pixels@ == paint_region(
            old(image).pixels@,
            color,
            ya as int,
            yb as int,
            (e1.0 as int, e1.1 as int, e1.2 as int, e1.3 as int),
            (e2.0 as int, e2.1 as int, e2.2 as int, e2.3 as int),
            old(image).width as int,
        ),
{
    let w = image.width;
    let h = image.height;
    let ghost orig = image.pixels@;
    let ghost ie1 = (e1.0 as int, e1.1 as int, e1.2 as int, e1.3 as int);
    let ghost ie2 = (e2.0 as int, e2.1 as int, e2.2 as int, e2.3 as int);
    if ya >= h || ya > yb {
        proof {
            assert forall|i: int| 0 <= i < orig.len() implies #[trigger] paint_region(orig, color, ya as int, yb as int, ie1, ie2, w as int)[i] == orig[i] by {
                lemma_index_split(w as int, h as int, i);
            }
        }
        assert(image.pixels@ =~= paint_region(orig, color, ya as int, yb as int, ie1, ie2, w as int));
        return;
    }
    let last = if yb < h - 1 { yb } else { h - 1 };
    let mut y: u32 = ya;
    while y <= last
        invariant
            image.wf(),
            image.width == w,
            image.height == h,
            w > 0,
            ya <= y <= last + 1,
            last < h,
            last <= yb,
            ie1 == (e1.0 as int, e1.1 as int, e1.2 as int, e1.3 as int),
            ie2 == (e2.0 as int, e2.1 as int, e2.2 as int, e2.3 as int),
            e1.0 <= ya,
            yb <= e1.1,
            e2.0 <= ya,
            yb <= e2.1,
            image.pixels@ == Seq::new(
                orig.len(),
                |i: int|
                    if i / (w as int) < y && span_covers(i % (w as int), i / (w as int), ya as int, yb as int, ie1, ie2, w as int) {
                        blend(orig[i], color)
                    } else {
                        orig[i]
                    },
            ),
        decreases last + 1 - y,
    {
        let f1 = interpolate(y, e1.0, e1.1, e1.2, e1.3);
        let f2 = interpolate(y, e2.0, e2.1, e2.2, e2.3);
        let lo = if f1 <= f2 { f1 } else { f2 };
        let top = if f1 >= f2 { f1 } else { f2 };
        let hi = if top <= w - 1 { top } else { w - 1 };
        let ghost before = image.pixels@;
        if lo <= hi {
            draw_span(image, y, lo, hi, color);
        }
        proof {
            assert forall|i: int| 0 <= i < orig.len() implies #[trigger] image.pixels@[i] == (if i / (w as int) < y + 1 && span_covers(i % (w as int), i / (w as int), ya as int, yb as int, ie1, ie2, w as int) {
                blend(orig[i], color)
            } else {
                orig[i]
            }) by {
                lemma_index_split(w as int, h as int, i);
                let row = i / (w as int);
                let col = i % (w as int);
                assert(before[i] == (if row < y && span_covers(col, row, ya as int, yb as int, ie1, ie2, w as int) {
                    blend(orig[i], color)
                } else {
                    orig[i]
                }));
                if row == y {
                    assert(f1 as int == edge_x(row, ie1.0, ie1.1, ie1.2, ie1.3));
                    assert(f2 as int == edge_x(row, ie2.0, ie2.1, ie2.2, ie2.3));
                    assert(lo as int == min_int(f1 as int, f2 as int));
                    assert(hi as int == min_int(max_int(f1 as int, f2 as int), w - 1));
                    assert(ya <= row <= yb);
                    assert(span_covers(col, row, ya as int, yb as int, ie1, ie2, w as int) == (lo <= col <= hi));
                }
                if lo <= hi {
                    assert(image.pixels@[i] == (if row == y && lo <= col <= hi { blend(before[i], color) } else { before[i] }));
                }
            }
        }
        y = y + 1;
        assert(image.pixels@ =~= Seq::new(
            orig.len(),
            |i: int|
                if i / (w as int) < y && span_covers(i % (w as int), i / (w as int), ya as int, yb as int, ie1, ie2, w as int) {
                    blend(orig[i], color)
                } else {
                    orig[i]
                },
        ));
    }
    proof {
        assert forall|i: int| 0 <= i < orig.len() implies #[trigger] image.pixels@[i] == paint_region(orig, color, ya as int, yb as int, ie1, ie2, w as int)[i] by {
            lemma_index_split(w as int, h as int, i);
        }
    }
    assert(image.pixels@ =~= paint_region(orig, color, ya as int, yb as int, ie1, ie2, w as int));
}

/// Composites the triangle over the image by scanline fill (see `paint`).
pub fn draw_triangle(image: &mut Image, triangle: &Triangle)
    requires
        old(image).wf(),
        old(image).width > 0,
    ensures
        final(image).wf(),
        final(image).width == old(image).width,
        final(image).height == old(image).height,
        final(image).pixels@ == paint(old(image).pixels@, *triangle, old(image).width as int),
{
    let ghost orig = image.pixels@;
    let w = image.width;
    let mut top = triangle.vertex1;
    let mut mid = triangle.vertex2;
    let mut bottom = triangle.vertex3;
    if top.y > mid.y {
        let tmp = top;
        top = mid;
        mid = tmp;
    }
    if top.y > bottom.y {
        let tmp = top;
        top = bottom;
        bottom = tmp;
    }
    if mid.y > bottom.y {
        let tmp = mid;
        mid = bottom;
        bottom = tmp;
    }
    assert(sorted_vertices(*triangle) == (top, mid, bottom));
    let long = (top.y, bottom.y, top.x, bottom.x);
    draw_region(image, top.y, mid.y, long, (top.y, mid.y, top.x, mid.x), triangle.color);
    draw_region(image, mid.y, bottom.y, long, (mid.y, bottom.y, mid.x, bottom.x), triangle.color);
    proof {
        assert forall|i: int| 0 <= i < orig.len() implies #[trigger] image.pixels@[i] == blend_times(
            orig[i],
            triangle.color,
            cover_count(*triangle, i % (w as int), i / (w as int), w as int),
        ) by {
            let c = triangle.color;
            assert(blend_times(orig[i], c, 0) == orig[i]);
            assert(blend_times(orig[i], c, 1) == blend(blend_times(orig[i], c, 0), c));
            assert(blend_times(orig[i], c, 2) == blend(blend_times(orig[i], c, 1), c));
        }
    }
    assert(image.pixels@ =~= paint(orig, *triangle, w as int));
}

/// The image shows exactly `render(triangles, width, height)`.
pub open spec fn shows(img: Image, triangles: Seq<Triangle>, width: int, height: int) -> bool {
    &&& img.wf()
    &&& img.width == width
    &&& img.height == height
    &&& img.pixels@ == render(triangles, width, height)
}

/// A rendered image has one pixel per position of the image.
pub proof fn lemma_render_len(triangles: Seq<Triangle>, width: int, height: int)
    requires
        width >= 0,
        height >= 0,
    ensures
        render(triangles, width, height).len() == width * height,
    decreases triangles.len(),
{
    assert(width * height >= 0) by (nonlinear_arith)
        requires
            width >= 0,
            height >= 0,
    ;
    if triangles.len() > 0 {
        lemma_render_len(triangles.drop_last(), width, height);
    }
}

/// Rendering no triangle gives a fully transparent image.
pub proof fn lemma_empty_render_transparent(width: int, height: int)
    requires
        width >= 0,
        height >= 0,
    ensures
        forall|i: int| 0 <= i < width * height ==> #[trigger] render(Seq::empty(), width, height)[i].a == 0,
{
    assert(width * height >= 0) by (nonlinear_arith)
        requires
            width >= 0,
            height >= 0,
    ;
}

/// Renders the candidate: a transparent `width` × `height` image with every triangle
/// composited over it in order.
pub fn draw_vector(vector: &Vector, width: u32, height: u32) -> (img: Image)
    requires
        width as int * height as int <= MAX_PIXELS,
    ensures
        shows(img, vector.triangles@, width as int, height as int),
{
    let mut image = Image::new(width, height);
    proof {
        lemma_render_len(vector.triangles@, width as int, height as int);
    }
    if width == 0 {
        assert(image.pixels@ =~= render(vector.triangles@, width as int, height as int));
        return image;
    }
    let n = vector.triangles.len();
    let mut k: usize = 0;
    assert(image.pixels@ =~= render(vector.triangles@.subrange(0, 0), width as int, height as int));
    while k < n
        invariant
            n == vector.triangles@.len(),
            k <= n,
            width > 0,
            image.wf(),
            image.width == width,
            image.height == height,
            image.pixels@ == render(vector.triangles@.subrange(0, k as int), width as int, height as int),
        decreases n - k,
    {
        draw_triangle(&mut image, &vector.triangles[k]);
        let ghost next = vector.triangles@.subrange(0, k + 1);
        assert(next.drop_last() =~= vector.triangles@.subrange(0, k as int));
        k = k + 1;
    }
    assert(vector.triangles@.subrange(0, n as int) =~= vector.triangles@);
    image
}

/// Renders each candidate of the chunk, in order.
pub fn process_chunk(vectors_chunk: &[Vector], width: u32, height: u32) -> (imgs: Vec<Image>)
    requires
        width as int * height as int <= MAX_PIXELS,
    ensures
        imgs@.len() == vectors_chunk@.len(),
        forall|i: int|
            0 <= i < imgs@.len() ==> shows(#[trigger] imgs@[i], vectors_chunk@[i].triangles@, width as int, height as int),
{
    let mut imgs: Vec<Image> = Vec::new();
    let mut i: usize = 0;
    while i < vectors_chunk.len()
        invariant
            i <= vectors_chunk@.len(),
            width as int * height as int <= MAX_PIXELS,
            imgs@.len() == i,
            forall|k: int|
                0 <= k < i ==> shows(#[trigger] imgs@[k], vectors_chunk@[k].triangles@, width as int, height as int),
        decreases vectors_chunk@.len() - i,
    {
        imgs.push(draw_vector(&vectors_chunk[i], width, height));
        i = i + 1;
    }
    imgs
}

/// Relies on rayon's `par_chunks(..).map(..).collect()`: the slice cut into consecutive
/// chunks of `chunk_size` (the last one shorter), each rendered by `process_chunk`, the
/// results collected in chunk order.
#[verifier::external_body]
fn render_chunks_in_parallel(vectors: &Vec<Vector>, chunk_size: usize, width: u32, height: u32) -> (r: Vec<Vec<Image>>)
    requires
        chunk_size > 0,
        width as int * height as int <= MAX_PIXELS,
    ensures
        r@.len() * chunk_size >= vectors@.len(),
        (r@.len() - 1) * chunk_size < vectors@.len() || r@.len() == 0,
        forall|k: int|
            0 <= k < r@.len() ==> (#[trigger] r@[k])@.len() == if (k + 1) * chunk_size <= vectors@.len() {
                chunk_size as int
            } else {
                vectors@.len() - k * chunk_size
            },
        forall|k: int, i: int|
            0 <= k < r@.len() && 0 <= i < r@[k]@.len() ==> shows(
                #[trigger] r@[k]@[i],
                vectors@[k * chunk_size + i].triangles@,
                width as int,
                height as int,
            ),
{
    vectors.par_chunks(chunk_size).map(|chunk| process_chunk(chunk, width, height)).collect()
}

/// Renders the whole population in parallel, `num_workers` contiguous chunks of
/// `ceil(len / num_workers)` candidates each; image `i` is candidate `i`'s.
pub fn draw_concur(vectors: &Vec<Vector>, width: u32, height: u32, num_workers: usize) -> (imgs: Vec<Image>)
    requires
        num_workers > 0,
        width as int * height as int <= MAX_PIXELS,
    ensures
        imgs@.len() == vectors@.len(),
        forall|i: int|
            0 <= i < imgs@.len() ==> shows(#[trigger] imgs@[i], vectors@[i].triangles@, width as int, height as int),
{
    let n = vectors.len();
    if n == 0 {
        return Vec::new();
    }
    let chunk_size = (n - 1) / num_workers + 1;
    let mut chunks = render_chunks_in_parallel(vectors, chunk_size, width, height);
    let m = chunks.len();
    let mut imgs: Vec<Image> = Vec::new();
    let mut k: usize = 0;
    while k < m
        invariant
            0 < chunk_size,
            n == vectors@.len(),
            m == chunks@.len() + k,
            k <= m,
            m * chunk_size >= n,
            (m - 1) * chunk_size < n,
            k < m ==> imgs@.len() == k * chunk_size,
            k == m ==> imgs@.len() == n,
            forall|j: int|
                0 <= j < chunks@.len() ==> (#[trigger] chunks@[j])@.len() == if (k + j + 1) * chunk_size <= n {
                    chunk_size as int
                } else {
                    n - (k + j) * chunk_size
                },
            forall|j: int, i: int|
                0 <= j < chunks@.len() && 0 <= i < chunks@[j]@.len() ==> shows(
                    #[trigger] chunks@[j]@[i],
                    vectors@[(k + j) * chunk_size + i].triangles@,
                    width as int,
                    height as int,
                ),
            forall|i: int|
                0 <= i < imgs@.len() ==> shows(#[trigger] imgs@[i], vectors@[i].triangles@, width as int, height as int),
        decreases m - k,
    {
        let ghost before = chunks@;
        let mut chunk = chunks.remove(0);
        let ghost start = imgs@.len();
        let ghost part = chunk@;
        proof {
            assert forall|j: int| 0 <= j < chunks@.len() implies #[trigger] chunks@[j] == before[j + 1] by {}
        }
        imgs.append(&mut chunk);
        proof {
            assert forall|i: int| 0 <= i < imgs@.len() implies shows(#[trigger] imgs@[i], vectors@[i].triangles@, width as int, height as int) by {
                if i >= start {
                    let off = i - start;
                    assert(imgs@[i] == part[off]);
                    assert(before[0]@[off] == part[off]);
                    assert((k + 0) * chunk_size + off == i) by (nonlinear_arith)
                        requires
                            start == k * chunk_size,
                            off == i - start,
                    ;
                }
            }
            assert((k + 1) * chunk_size == k * chunk_size + chunk_size) by (nonlinear_arith);
            if k + 1 < m {
                assert((k + 1) * chunk_size <= (m - 1) * chunk_size) by (nonlinear_arith)
                    requires
                        k + 1 <= m - 1,
                        chunk_size > 0,
                ;
                assert(part.len() == chunk_size);
            } else {
                assert(part.len() == n - k * chunk_size);
            }
            assert forall|j: int, i: int|
                0 <= j < chunks@.len() && 0 <= i < chunks@[j]@.len() implies shows(
                    #[trigger] chunks@[j]@[i],
                    vectors@[((k + 1) + j) * chunk_size + i].triangles@,
                    width as int,
                    height as int,
                ) by {
                assert(chunks@[j] == before[j + 1]);
                assert((k + 1) + j == k + (j + 1));
            }
            assert forall|j: int| 0 <= j < chunks@.len() implies (#[trigger] chunks@[j])@.len() == if ((k + 1) + j + 1) * chunk_size <= n {
                chunk_size as int
            } else {
                n - ((k + 1) + j) * chunk_size
            } by {
                assert(chunks@[j] == before[j + 1]);
                assert((k + 1) + j == k + (j + 1));
            }
        }
        k = k + 1;
    }
    imgs
}

proof fn lemma_mul_below(a: int, b: int)
    requires
        0 <= a <= 0xffff_ffff,
        0 <= b <= 0xffff_ffff,
    ensures
        0 <= a * b <= 0xffff_ffff * 0xffff_ffff,
{
    assert(0 <= a * b <= 0xffff_ffff * 0xffff_ffff) by (nonlinear_arith)
        requires
            0 <= a <= 0xffff_ffff,
            0 <= b <= 0xffff_ffff,
    ;
}

} // verus!
