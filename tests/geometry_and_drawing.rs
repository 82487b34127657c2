use evo_art::canvas::{blend_pixel, Image};
use evo_art::draw::{draw_concur, draw_triangle, draw_vector};
use evo_art::geometry::{Color, Scale, Triangle, TriangleDelta, Vertex, MAX_ALPHA, MIN_ALPHA};
use evo_art::vector::Vector;

fn tri(a: (u32, u32), b: (u32, u32), c: (u32, u32), color: Color) -> Triangle {
    Triangle {
        vertex1: Vertex { x: a.0, y: a.1 },
        vertex2: Vertex { x: b.0, y: b.1 },
        vertex3: Vertex { x: c.0, y: c.1 },
        color,
    }
}

fn pixel(img: &Image, x: u32, y: u32) -> Color {
    img.pixels[(y * img.width + x) as usize]
}

#[test]
fn clamp_triangle_puts_every_component_in_range() {
    let d = TriangleDelta { x1: -5, y1: 100, x2: 3, y2: -1, x3: 1000, y3: 2, r: -20, g: 300, b: 17, a: 10 };
    let t = Triangle::clamp_triangle(&d, 10, 8);
    assert_eq!(t.vertex1, Vertex { x: 0, y: 7 });
    assert_eq!(t.vertex2, Vertex { x: 3, y: 0 });
    assert_eq!(t.vertex3, Vertex { x: 9, y: 2 });
    assert_eq!(t.color, Color { r: 0, g: 255, b: 17, a: MIN_ALPHA });
    let high = TriangleDelta { x1: 0, y1: 0, x2: 0, y2: 0, x3: 0, y3: 0, r: 0, g: 0, b: 0, a: 500 };
    assert_eq!(Triangle::clamp_triangle(&high, 1, 1).color.a, MAX_ALPHA);
}

#[test]
fn mutation_follows_the_formula() {
    let c = Color { r: 10, g: 20, b: 30, a: 60 };
    let t1 = tri((5, 5), (1, 1), (2, 2), c);
    let t2 = tri((8, 2), (1, 1), (2, 2), Color { r: 50, g: 20, b: 30, a: 100 });
    let t3 = tri((2, 6), (1, 1), (2, 2), Color { r: 10, g: 20, b: 30, a: 60 });
    // t1 + 3/2 · (t2 − t3): x = 5 + 9 = 14 → clamped to 9; y = 5 + trunc(−6) = −1 → 0
    let m = Triangle::mutate(&t1, &t2, &t3, Scale { numer: 3, denom: 2 }, 10, 10);
    assert_eq!(m.vertex1, Vertex { x: 9, y: 0 });
    assert_eq!(m.vertex2, Vertex { x: 1, y: 1 });
    assert_eq!(m.color.r, 70);
    assert_eq!(m.color.a, 120);
    let s = Triangle::mutate(&t1, &t3, &t2, Scale { numer: 1, denom: 2 }, 10, 10);
    // x: 5 + trunc(−3) = 2; y: 5 + trunc(2) = 7; r: 10 + trunc(−20) → 0; a: 60 − 20 = 40 → 50
    assert_eq!(s.vertex1, Vertex { x: 2, y: 7 });
    assert_eq!(s.color.r, 0);
    assert_eq!(s.color.a, MIN_ALPHA);
}

#[test]
fn random_triangle_has_distinct_vertices_in_bounds() {
    for _ in 0..200 {
        let t = Triangle::generate_random_triangle(2, 2);
        assert!(t.vertex1 != t.vertex2 && t.vertex1 != t.vertex3 && t.vertex2 != t.vertex3);
        for v in [t.vertex1, t.vertex2, t.vertex3] {
            assert!(v.x < 2 && v.y < 2);
        }
        assert!(t.color.a >= MIN_ALPHA && t.color.a < MAX_ALPHA);
    }
}

#[test]
fn opaque_source_keeps_its_colour() {
    let src = Color { r: 12, g: 200, b: 99, a: 255 };
    for dst in [Color { r: 0, g: 0, b: 0, a: 0 }, Color { r: 255, g: 255, b: 255, a: 255 }, Color { r: 7, g: 130, b: 250, a: 40 }] {
        let out = blend_pixel(dst, src);
        assert_eq!((out.r, out.g, out.b), (12, 200, 99));
        assert_eq!(out.a, 255);
    }
}

#[test]
fn blend_truncates() {
    let out = blend_pixel(Color { r: 100, g: 0, b: 0, a: 100 }, Color { r: 255, g: 0, b: 0, a: 100 });
    assert_eq!(out, Color { r: 160, g: 0, b: 0, a: 160 });
}

#[test]
fn empty_candidate_renders_transparent() {
    let v = Vector::from_triangles(Vec::new(), 1);
    let img = draw_vector(&v, 5, 3);
    assert_eq!((img.width, img.height), (5, 3));
    assert_eq!(img.pixels.len(), 15);
    assert!(img.pixels.iter().all(|p| p.a == 0));
}

#[test]
fn draw_triangle_scanline_fill() {
    let mut img = Image::new(4, 4);
    let t = tri((0, 0), (3, 0), (0, 3), Color { r: 255, g: 0, b: 0, a: 100 });
    draw_triangle(&mut img, &t);
    // the top vertex's row is covered by both halves
    assert_eq!(pixel(&img, 0, 0), Color { r: 160, g: 0, b: 0, a: 160 });
    assert_eq!(pixel(&img, 3, 0), Color { r: 100, g: 0, b: 0, a: 100 });
    assert_eq!(pixel(&img, 2, 1), Color { r: 100, g: 0, b: 0, a: 100 });
    assert_eq!(pixel(&img, 3, 1).a, 0);
    assert_eq!(pixel(&img, 0, 3), Color { r: 100, g: 0, b: 0, a: 100 });
    assert_eq!(pixel(&img, 1, 3).a, 0);
}

#[test]
fn horizontal_edge_triangle() {
    let mut img = Image::new(5, 3);
    let t = tri((1, 2), (4, 2), (1, 0), Color { r: 0, g: 0, b: 255, a: 51 });
    draw_triangle(&mut img, &t);
    // rows 0..=2: span from x = 1 to the edge (1,0)-(4,2)
    assert_eq!(pixel(&img, 1, 0).a, 51);
    assert_eq!(pixel(&img, 2, 0).a, 0);
    assert_eq!(pixel(&img, 2, 1).a, 51);
    assert_eq!(pixel(&img, 3, 1).a, 0);
    assert_eq!(pixel(&img, 4, 2).b, 91);
    assert_eq!(pixel(&img, 0, 2).a, 0);
}

#[test]
fn later_triangles_composite_on_top() {
    let red = tri((0, 0), (1, 0), (0, 1), Color { r: 255, g: 0, b: 0, a: 255 });
    let green = tri((0, 0), (1, 0), (0, 1), Color { r: 0, g: 255, b: 0, a: 255 });
    let v = Vector::from_triangles(vec![red, green], 1);
    let img = draw_vector(&v, 2, 2);
    assert_eq!(pixel(&img, 1, 0), Color { r: 0, g: 255, b: 0, a: 255 });
    assert_eq!(pixel(&img, 1, 1).a, 0);
}

#[test]
fn concurrent_drawing_keeps_population_order() {
    let mut pool = Vec::new();
    for i in 0..7u32 {
        let t = tri((i % 3, 0), (2, 2), (0, 2), Color { r: (i * 30) as u8, g: 0, b: 0, a: 255 });
        pool.push(Vector::from_triangles(vec![t], 0));
    }
    for workers in [1usize, 2, 3, 16] {
        let imgs = draw_concur(&pool, 3, 3, workers);
        assert_eq!(imgs.len(), 7);
        for (i, img) in imgs.iter().enumerate() {
            let single = draw_vector(&pool[i], 3, 3);
            assert_eq!(img.pixels, single.pixels);
        }
    }
    assert!(draw_concur(&Vec::new(), 3, 3, 4).is_empty());
}
