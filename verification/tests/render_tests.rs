use tinyrenderer::render::triangle;
use tinyrenderer::render::Color;
use tinyrenderer::render::Framebuffer;

fn color(r: u8, g: u8, b: u8) -> Color {
    Color { r, g, b }
}

fn black() -> Color {
    color(0, 0, 0)
}

fn at(fb: &Framebuffer, x: usize, y: usize) -> Color {
    fb.data[y * fb.width + x]
}

fn depth_at(fb: &Framebuffer, x: usize, y: usize) -> u8 {
    fb.zbuffer[y * fb.width + x]
}

#[test]
fn new_framebuffer_is_black_with_zero_depth() {
    let fb = Framebuffer::new(4, 3);
    assert_eq!(fb.width, 4);
    assert_eq!(fb.height, 3);
    assert_eq!(fb.data.len(), 12);
    assert_eq!(fb.zbuffer.len(), 12);
    for y in 0..3 {
        for x in 0..4 {
            assert_eq!(at(&fb, x, y), black());
            assert_eq!(depth_at(&fb, x, y), 0);
        }
    }
}

#[test]
fn set_pixel_writes_in_bounds() {
    let mut fb = Framebuffer::new(4, 4);
    fb.set_pixel(2, 1, color(9, 8, 7));
    assert_eq!(at(&fb, 2, 1), color(9, 8, 7));
    assert_eq!(depth_at(&fb, 2, 1), 0);
}

#[test]
fn set_pixel_out_of_bounds_is_a_no_op() {
    let mut fb = Framebuffer::new(4, 4);
    fb.set_pixel(-1, 0, color(1, 2, 3));
    fb.set_pixel(0, -1, color(1, 2, 3));
    fb.set_pixel(4, 0, color(1, 2, 3));
    fb.set_pixel(0, 4, color(1, 2, 3));
    fb.set_pixel(i32::MIN, i32::MAX, color(1, 2, 3));
    for y in 0..4 {
        for x in 0..4 {
            assert_eq!(at(&fb, x, y), black());
            assert_eq!(depth_at(&fb, x, y), 0);
        }
    }
}

#[test]
fn horizontal_line_covers_every_column() {
    let mut fb = Framebuffer::new(8, 8);
    tinyrenderer::render::line(1, 2, 5, 2, &mut fb, color(255, 0, 0));
    for x in 1..=5 {
        assert_eq!(at(&fb, x, 2), color(255, 0, 0));
    }
    let painted = fb.data.iter().filter(|c| **c != black()).count();
    assert_eq!(painted, 5);
}

#[test]
fn line_includes_both_endpoints() {
    let mut fb = Framebuffer::new(16, 16);
    tinyrenderer::render::line(1, 3, 11, 7, &mut fb, color(0, 255, 0));
    assert_eq!(at(&fb, 1, 3), color(0, 255, 0));
    assert_eq!(at(&fb, 11, 7), color(0, 255, 0));
}

#[test]
fn shallow_line_has_one_pixel_per_column() {
    let mut fb = Framebuffer::new(16, 16);
    tinyrenderer::render::line(2, 1, 13, 6, &mut fb, color(1, 1, 1));
    for x in 2..=13 {
        let count = (0..16).filter(|y| at(&fb, x, *y as usize) != black()).count();
        assert_eq!(count, 1, "column {} must hold exactly one pixel", x);
    }
    for x in (0..2).chain(14..16) {
        let count = (0..16).filter(|y| at(&fb, x, *y as usize) != black()).count();
        assert_eq!(count, 0, "column {} must stay empty", x);
    }
}

#[test]
fn steep_line_has_one_pixel_per_row() {
    let mut fb = Framebuffer::new(16, 16);
    tinyrenderer::render::line(3, 2, 6, 14, &mut fb, color(2, 2, 2));
    for y in 2..=14 {
        let count = (0..16).filter(|x| at(&fb, *x as usize, y) != black()).count();
        assert_eq!(count, 1, "row {} must hold exactly one pixel", y);
    }
    assert_eq!(at(&fb, 3, 2), color(2, 2, 2));
    assert_eq!(at(&fb, 6, 14), color(2, 2, 2));
}

#[test]
fn zero_length_line_draws_one_pixel() {
    let mut fb = Framebuffer::new(8, 8);
    tinyrenderer::render::line(4, 5, 4, 5, &mut fb, color(7, 7, 7));
    assert_eq!(at(&fb, 4, 5), color(7, 7, 7));
    let painted = fb.data.iter().filter(|c| **c != black()).count();
    assert_eq!(painted, 1);
}

#[test]
fn right_to_left_line_equals_left_to_right() {
    let mut fb1 = Framebuffer::new(16, 16);
    let mut fb2 = Framebuffer::new(16, 16);
    tinyrenderer::render::line(2, 3, 12, 9, &mut fb1, color(5, 5, 5));
    tinyrenderer::render::line(12, 9, 2, 3, &mut fb2, color(5, 5, 5));
    assert_eq!(fb1.data, fb2.data);
}

#[test]
fn line_is_clipped_at_the_canvas() {
    let mut fb = Framebuffer::new(4, 4);
    tinyrenderer::render::line(-3, 1, 6, 1, &mut fb, color(9, 9, 9));
    for x in 0..4 {
        assert_eq!(at(&fb, x, 1), color(9, 9, 9));
    }
}

#[test]
fn clockwise_triangle_is_culled() {
    let mut fb = Framebuffer::new(32, 32);
    // the reverse winding of a triangle that would otherwise be filled
    triangle(0, 0, 100, 0, 10, 100, 10, 0, 100, &mut fb, color(50, 60, 70));
    for y in 0..32 {
        for x in 0..32 {
            assert_eq!(at(&fb, x, y), black());
            assert_eq!(depth_at(&fb, x, y), 0);
        }
    }
}

#[test]
fn degenerate_triangle_is_culled() {
    let mut fb = Framebuffer::new(32, 32);
    triangle(3, 3, 10, 9, 9, 10, 15, 15, 10, &mut fb, color(50, 60, 70));
    for y in 0..32 {
        for x in 0..32 {
            assert_eq!(at(&fb, x, y), black());
        }
    }
}

#[test]
fn counter_winding_triangle_fills_pixels() {
    let mut fb = Framebuffer::new(32, 32);
    // same vertices as the culled one, wound the other way
    triangle(0, 0, 100, 10, 0, 100, 0, 10, 100, &mut fb, color(50, 60, 70));
    let painted = fb.data.iter().filter(|c| **c != black()).count();
    assert!(painted > 0);
    assert_eq!(at(&fb, 2, 2), color(50, 60, 70));
}

#[test]
fn depth_test_keeps_the_closer_triangle_in_both_orders() {
    // two large triangles covering pixel (5, 5), at depths 100 and 200
    let near = (color(0, 0, 255), 200u8);
    let far = (color(255, 0, 0), 100u8);
    let mut fb1 = Framebuffer::new(32, 32);
    triangle(0, 0, far.1, 20, 0, far.1, 0, 20, far.1, &mut fb1, far.0);
    triangle(0, 0, near.1, 20, 0, near.1, 0, 20, near.1, &mut fb1, near.0);
    let mut fb2 = Framebuffer::new(32, 32);
    triangle(0, 0, near.1, 20, 0, near.1, 0, 20, near.1, &mut fb2, near.0);
    triangle(0, 0, far.1, 20, 0, far.1, 0, 20, far.1, &mut fb2, far.0);
    assert_eq!(at(&fb1, 5, 5), near.0);
    assert_eq!(at(&fb2, 5, 5), near.0);
    assert_eq!(depth_at(&fb1, 5, 5), 200);
    assert_eq!(depth_at(&fb2, 5, 5), 200);
}

#[test]
fn equal_depth_never_overwrites() {
    let mut fb = Framebuffer::new(32, 32);
    triangle(0, 0, 100, 20, 0, 100, 0, 20, 100, &mut fb, color(255, 0, 0));
    triangle(0, 0, 100, 20, 0, 100, 0, 20, 100, &mut fb, color(0, 255, 0));
    // the second fill loses every strict depth comparison
    assert_eq!(at(&fb, 5, 5), color(255, 0, 0));
}

#[test]
fn interpolated_depth_is_truncated_to_u8() {
    // constant-depth triangle: every covered pixel stores exactly that depth
    let mut fb = Framebuffer::new(32, 32);
    triangle(0, 0, 77, 20, 0, 77, 0, 20, 77, &mut fb, color(1, 2, 3));
    assert_eq!(depth_at(&fb, 5, 5), 77);
}

#[test]
fn single_triangle_scenario() {
    let mut fb = Framebuffer::new(64, 64);
    let fill = color(200, 50, 50);
    triangle(10, 10, 0, 50, 10, 128, 30, 50, 255, &mut fb, fill);
    // everything outside the bounding box is untouched
    for y in 0..64 {
        for x in 0..64 {
            let in_bbox = (10..=50).contains(&x) && (10..=50).contains(&y);
            if !in_bbox {
                assert_eq!(at(&fb, x, y), black());
                assert_eq!(depth_at(&fb, x, y), 0);
            }
        }
    }
    // the centroid pixel carries the fill color and a positive depth
    assert_eq!(at(&fb, 30, 23), fill);
    assert!(depth_at(&fb, 30, 23) > 0);
}

#[test]
fn edge_and_vertex_pixels_are_drawn() {
    // the inside test is closed: barycentric weights of exactly zero on an
    // edge or at a vertex still count as inside
    let mut fb = Framebuffer::new(32, 32);
    triangle(0, 0, 50, 10, 0, 50, 0, 10, 50, &mut fb, color(4, 4, 4));
    assert_eq!(at(&fb, 0, 0), color(4, 4, 4));
    assert_eq!(at(&fb, 5, 0), color(4, 4, 4));
    assert_eq!(at(&fb, 0, 5), color(4, 4, 4));
    // just outside the hypotenuse one weight turns negative
    assert_eq!(at(&fb, 6, 6), black());
}

#[test]
fn to_image_snapshots_the_color_plane() {
    let mut fb = Framebuffer::new(4, 4);
    fb.set_pixel(1, 2, color(10, 20, 30));
    let img = fb.to_image();
    assert_eq!(img.width, 4);
    assert_eq!(img.height, 4);
    assert_eq!(img.pixels[2 * 4 + 1], color(10, 20, 30));
    assert_eq!(img.pixels[0], black());
    // the framebuffer itself is unchanged
    assert_eq!(at(&fb, 1, 2), color(10, 20, 30));
}

#[test]
fn to_zbuffer_image_is_grayscale_depth() {
    let mut fb = Framebuffer::new(16, 16);
    triangle(0, 0, 90, 10, 0, 90, 0, 10, 90, &mut fb, color(1, 1, 1));
    let img = fb.to_zbuffer_image();
    assert_eq!(img.pixels[2 * 16 + 2], color(90, 90, 90));
    assert_eq!(img.pixels[15 * 16 + 15], black());
}
