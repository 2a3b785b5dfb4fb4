use softrender::color::Pixel;
use softrender::framebuffer::Framebuffer;
use softrender::raster::{draw_line, draw_pixel, draw_rect, draw_triangle};

const BLACK_PACKED: u32 = 0xff00_0000;

fn white() -> Pixel {
    Pixel::new(255, 255, 255, 255)
}

fn red() -> Pixel {
    Pixel::new(255, 0, 0, 255)
}

/// The cells of `fb` that do not hold opaque black, as (x, y) pairs in
/// row-major order.
fn touched_cells(fb: &Framebuffer, w: usize, h: usize) -> Vec<(usize, usize)> {
    let packed = fb.to_packed_array();
    let mut out = Vec::new();
    for y in 0..h {
        for x in 0..w {
            if packed[y * w + x] != BLACK_PACKED {
                out.push((x, y));
            }
        }
    }
    out
}

#[test]
fn pixel_pack_layout() {
    assert_eq!(Pixel::new(255, 0, 0, 255).to_u32(), 0xffff_0000);
    assert_eq!(Pixel::new(0, 255, 0, 255).to_u32(), 0xff00_ff00);
    assert_eq!(Pixel::new(0, 0, 255, 255).to_u32(), 0xff00_00ff);
    assert_eq!(Pixel::new(1, 2, 3, 4).to_u32(), 0x0401_0203);
    assert_eq!(Pixel::new(0, 0, 0, 255).to_u32(), BLACK_PACKED);
}

#[test]
fn pixel_pack_decodes_back() {
    let p = Pixel::new(17, 42, 99, 200);
    let v = p.to_u32();
    assert_eq!(((v >> 16) & 0xff) as u8, p.r);
    assert_eq!(((v >> 8) & 0xff) as u8, p.g);
    assert_eq!((v & 0xff) as u8, p.b);
    assert_eq!(((v >> 24) & 0xff) as u8, p.a);
}

#[test]
fn new_framebuffer_is_opaque_black() {
    let fb = Framebuffer::new(4, 3);
    let packed = fb.to_packed_array();
    assert_eq!(packed.len(), 12);
    for v in packed {
        assert_eq!(v, BLACK_PACKED);
    }
}

#[test]
fn draw_pixel_then_get_returns_written_color() {
    let mut fb = Framebuffer::new(8, 8);
    let c = Pixel::new(10, 20, 30, 40);
    draw_pixel(&mut fb, 2, 5, c);
    assert_eq!(fb.get(2, 5), c);
    // a neighbour is untouched
    assert_eq!(fb.get(3, 5), Pixel::new(0, 0, 0, 255));
}

#[test]
fn draw_pixel_out_of_range_changes_nothing() {
    let mut fb = Framebuffer::new(4, 4);
    draw_pixel(&mut fb, 1, 1, red());
    let before = fb.to_packed_array();
    draw_pixel(&mut fb, -1, 0, white());
    draw_pixel(&mut fb, 0, -1, white());
    draw_pixel(&mut fb, 4, 0, white());
    draw_pixel(&mut fb, 0, 4, white());
    draw_pixel(&mut fb, i32::MIN, i32::MAX, white());
    assert_eq!(fb.to_packed_array(), before);
}

#[test]
fn draw_rect_touches_exactly_the_rectangle() {
    let mut fb = Framebuffer::new(6, 5);
    draw_rect(&mut fb, 1, 2, 3, 2, red());
    let touched = touched_cells(&fb, 6, 5);
    assert_eq!(touched.len(), 3 * 2);
    for y in 0..5 {
        for x in 0..6 {
            let inside = x >= 1 && x < 4 && y >= 2 && y < 4;
            assert_eq!(touched.contains(&(x, y)), inside);
            if inside {
                assert_eq!(fb.get(x, y), red());
            }
        }
    }
}

#[test]
fn draw_rect_clips_to_the_grid() {
    let mut fb = Framebuffer::new(4, 4);
    draw_rect(&mut fb, -2, -2, 4, 4, white());
    let touched = touched_cells(&fb, 4, 4);
    assert_eq!(touched, vec![(0, 0), (1, 0), (0, 1), (1, 1)]);
}

#[test]
fn draw_rect_of_zero_size_changes_nothing() {
    let mut fb = Framebuffer::new(4, 4);
    let before = fb.to_packed_array();
    draw_rect(&mut fb, 1, 1, 0, 3, white());
    draw_rect(&mut fb, 1, 1, 3, 0, white());
    assert_eq!(fb.to_packed_array(), before);
}

#[test]
fn draw_rect_entirely_off_grid_changes_nothing() {
    let mut fb = Framebuffer::new(4, 4);
    let before = fb.to_packed_array();
    draw_rect(&mut fb, -10, -10, 3, 3, white());
    draw_rect(&mut fb, 10, 1, 3, 3, white());
    assert_eq!(fb.to_packed_array(), before);
}

#[test]
fn draw_line_is_symmetric_in_its_endpoints() {
    let cases = [
        (1, 1, 7, 4),
        (0, 5, 5, 0),
        (3, 3, 3, 8),
        (2, 0, 4, 9),
        (0, 0, 9, 9),
        (8, 2, 1, 2),
    ];
    for &(x0, y0, x1, y1) in cases.iter() {
        let mut fwd = Framebuffer::new(10, 10);
        let mut rev = Framebuffer::new(10, 10);
        draw_line(&mut fwd, x0, y0, x1, y1, white());
        draw_line(&mut rev, x1, y1, x0, y0, white());
        assert_eq!(fwd.to_packed_array(), rev.to_packed_array());
    }
}

#[test]
fn draw_line_of_one_point_touches_exactly_that_cell() {
    let mut fb = Framebuffer::new(10, 10);
    draw_line(&mut fb, 5, 5, 5, 5, red());
    assert_eq!(touched_cells(&fb, 10, 10), vec![(5, 5)]);
    assert_eq!(fb.get(5, 5), red());
}

#[test]
fn draw_line_horizontal_and_vertical() {
    let mut fb = Framebuffer::new(8, 8);
    draw_line(&mut fb, 2, 3, 6, 3, white());
    assert_eq!(
        touched_cells(&fb, 8, 8),
        vec![(2, 3), (3, 3), (4, 3), (5, 3), (6, 3)]
    );
    let mut fb2 = Framebuffer::new(8, 8);
    draw_line(&mut fb2, 4, 1, 4, 5, white());
    assert_eq!(
        touched_cells(&fb2, 8, 8),
        vec![(4, 1), (4, 2), (4, 3), (4, 4), (4, 5)]
    );
}

#[test]
fn draw_line_diagonal() {
    let mut fb = Framebuffer::new(6, 6);
    draw_line(&mut fb, 0, 0, 4, 4, white());
    assert_eq!(
        touched_cells(&fb, 6, 6),
        vec![(0, 0), (1, 1), (2, 2), (3, 3), (4, 4)]
    );
}

#[test]
fn draw_line_has_no_gaps_and_hits_both_endpoints() {
    let mut fb = Framebuffer::new(10, 10);
    draw_line(&mut fb, 0, 0, 7, 3, white());
    let touched = touched_cells(&fb, 10, 10);
    // one cell per column along the major axis, both endpoints included
    assert_eq!(touched.len(), 8);
    assert!(touched.contains(&(0, 0)));
    assert!(touched.contains(&(7, 3)));
    for x in 0..8usize {
        let ys: Vec<usize> = touched
            .iter()
            .filter(|&&(cx, _)| cx == x)
            .map(|&(_, cy)| cy)
            .collect();
        assert_eq!(ys.len(), 1);
    }
    // rows only ever step forward: no gaps for a shallow slope
    let mut prev_y = 0usize;
    for x in 0..8usize {
        let y = touched.iter().find(|&&(cx, _)| cx == x).unwrap().1;
        assert!(y == prev_y || y == prev_y + 1);
        prev_y = y;
    }
}

#[test]
fn draw_line_entirely_off_grid_changes_nothing() {
    let mut fb = Framebuffer::new(4, 4);
    let before = fb.to_packed_array();
    draw_line(&mut fb, -5, -5, -1, -1, white());
    draw_line(&mut fb, 10, 0, 10, 20, white());
    assert_eq!(fb.to_packed_array(), before);
}

#[test]
fn draw_triangle_fills_right_triangle_with_boundary_inside() {
    let mut fb = Framebuffer::new(6, 6);
    draw_triangle(&mut fb, 0, 0, 4, 0, 0, 4, red());
    // interior point and hypotenuse boundary point are both inside
    assert_eq!(fb.get(1, 1), red());
    assert_eq!(fb.get(2, 2), red());
    // the three vertices are inside
    assert_eq!(fb.get(0, 0), red());
    assert_eq!(fb.get(4, 0), red());
    assert_eq!(fb.get(0, 4), red());
    // just beyond the hypotenuse is outside
    assert_eq!(fb.get(3, 2), Pixel::new(0, 0, 0, 255));
    // the filled region is exactly x + y <= 4 within the bounding box
    let touched = touched_cells(&fb, 6, 6);
    assert_eq!(touched.len(), 15);
    for &(x, y) in touched.iter() {
        assert!(x + y <= 4);
    }
}

#[test]
fn draw_triangle_winding_does_not_matter() {
    let mut fwd = Framebuffer::new(6, 6);
    let mut rev = Framebuffer::new(6, 6);
    draw_triangle(&mut fwd, 0, 0, 4, 0, 0, 4, red());
    draw_triangle(&mut rev, 0, 0, 0, 4, 4, 0, red());
    assert_eq!(fwd.to_packed_array(), rev.to_packed_array());
}

#[test]
fn draw_triangle_collinear_fills_only_the_segment() {
    let mut fb = Framebuffer::new(8, 8);
    draw_triangle(&mut fb, 1, 1, 3, 1, 5, 1, white());
    assert_eq!(
        touched_cells(&fb, 8, 8),
        vec![(1, 1), (2, 1), (3, 1), (4, 1), (5, 1)]
    );
    let mut fb2 = Framebuffer::new(8, 8);
    draw_triangle(&mut fb2, 2, 2, 2, 2, 2, 2, white());
    assert_eq!(touched_cells(&fb2, 8, 8), vec![(2, 2)]);
}

#[test]
fn draw_triangle_entirely_off_grid_changes_nothing() {
    let mut fb = Framebuffer::new(4, 4);
    let before = fb.to_packed_array();
    draw_triangle(&mut fb, -5, -5, -1, -5, -5, -1, white());
    assert_eq!(fb.to_packed_array(), before);
}

#[test]
fn draw_line_with_off_grid_endpoints_still_crosses_the_grid() {
    let mut fb = Framebuffer::new(8, 8);
    draw_line(&mut fb, -2, 2, 9, 2, white());
    let touched = touched_cells(&fb, 8, 8);
    assert_eq!(touched.len(), 8);
    for x in 0..8usize {
        assert!(touched.contains(&(x, 2)));
    }
}

#[test]
fn draw_rect_clips_bottom_right() {
    let mut fb = Framebuffer::new(4, 4);
    draw_rect(&mut fb, 2, 2, 10, 10, red());
    assert_eq!(
        touched_cells(&fb, 4, 4),
        vec![(2, 2), (3, 2), (2, 3), (3, 3)]
    );
}

#[test]
fn clear_resets_every_cell_to_opaque_black() {
    let mut fb = Framebuffer::new(5, 5);
    draw_rect(&mut fb, 0, 0, 5, 5, red());
    draw_line(&mut fb, 0, 0, 4, 4, white());
    fb.clear();
    for v in fb.to_packed_array() {
        assert_eq!(v, BLACK_PACKED);
    }
}

#[test]
fn to_packed_array_is_row_major_and_decodes() {
    let mut fb = Framebuffer::new(4, 3);
    let c = Pixel::new(7, 8, 9, 10);
    draw_pixel(&mut fb, 2, 1, c);
    let packed = fb.to_packed_array();
    assert_eq!(packed.len(), 4 * 3);
    let v = packed[1 * 4 + 2];
    assert_eq!(v, c.to_u32());
    assert_eq!(((v >> 16) & 0xff) as u8, 7);
    assert_eq!(((v >> 8) & 0xff) as u8, 8);
    assert_eq!((v & 0xff) as u8, 9);
    assert_eq!(((v >> 24) & 0xff) as u8, 10);
    for y in 0..3usize {
        for x in 0..4usize {
            if (x, y) != (2, 1) {
                assert_eq!(packed[y * 4 + x], BLACK_PACKED);
            }
        }
    }
}

#[test]
fn overwrite_keeps_only_the_last_color() {
    let mut fb = Framebuffer::new(4, 4);
    draw_pixel(&mut fb, 1, 1, red());
    draw_pixel(&mut fb, 1, 1, white());
    assert_eq!(fb.get(1, 1), white());
}
