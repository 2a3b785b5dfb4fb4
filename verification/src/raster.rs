//! Stateless drawing algorithms: pixel, rectangle, line, filled triangle.
//! Every write goes through `Framebuffer::set`, so writes that fall outside
//! the grid are silently ignored and every drawing call is total.

use vstd::prelude::*;
use crate::color::Pixel;
use crate::framebuffer::Framebuffer;

verus! {

/// Whether (px, py) lies in the axis-aligned rectangle with top-left corner
/// (x, y) and size w-by-h, that is in [x, x+w) x [y, y+h).
pub open spec fn rect_contains(x: int, y: int, w: int, h: int, px: int, py: int) -> bool {
    x <= px < x + w && y <= py < y + h
}

/// Clamps v into [0, hi].
pub open spec fn clamp_int(v: int, hi: int) -> int {
    if v < 0 {
        0
    } else if v > hi {
        hi
    } else {
        v
    }
}

/// Single-cell write: the cell (x, y) takes the color, every other cell keeps
/// its old one; out of range, nothing changes at all.
pub fn draw_pixel(fb: &mut Framebuffer, x: i32, y: i32, color: Pixel)
    requires
        old(fb).wf(),
    ensures
        final(fb).wf(),
        final(fb).spec_width() == old(fb).spec_width(),
        final(fb).spec_height() == old(fb).spec_height(),
        forall|i: int, j: int| old(fb).in_range(i, j) ==> final(fb).color_at(i, j) == (if i == x
            && j == y {
            color
        } else {
            old(fb).color_at(i, j)
        }),
        !old(fb).in_range(x as int, y as int) ==> final(fb)@ == old(fb)@,
{
    fb.set(x, y, color);
}

/// Clamps a coordinate into [0, hi].
fn clamp_to(v: i128, hi: usize) -> (r: usize)
    requires
        hi <= 0x7fff_ffff,
    ensures
        r as int == clamp_int(v as int, hi as int),
{
    if v <= 0 {
        0
    } else if v >= hi as i128 {
        hi
    } else {
        v as usize
    }
}

/// Fills the axis-aligned rectangle [x, x+w) x [y, y+h): every grid cell in it
/// takes the color, every other cell keeps its old one.
pub fn draw_rect(fb: &mut Framebuffer, x: i32, y: i32, w: usize, h: usize, color: Pixel)
    requires
        old(fb).wf(),
    ensures
        final(fb).wf(),
        final(fb).spec_width() == old(fb).spec_width(),
        final(fb).spec_height() == old(fb).spec_height(),
        forall|i: int, j: int| old(fb).in_range(i, j) ==> final(fb).color_at(i, j) == (
        if rect_contains(x as int, y as int, w as int, h as int, i, j) {
            color
        } else {
            old(fb).color_at(i, j)
        }),
{
    let fw = fb.width();
    let fh = fb.height();
    let x_lo = clamp_to(x as i128, fw);
    let x_hi = clamp_to(x as i128 + w as i128, fw);
    let y_lo = clamp_to(y as i128, fh);
    let y_hi = clamp_to(y as i128 + h as i128, fh);
    let mut j: usize = y_lo;
    while j < y_hi
        invariant
            old(fb).wf(),
            fb.wf(),
            fb.spec_width() == old(fb).spec_width(),
            fb.spec_height() == old(fb).spec_height(),
            fw as int == fb.spec_width(),
            fh as int == fb.spec_height(),
            x_lo as int == clamp_int(x as int, fw as int),
            x_hi as int == clamp_int(x as int + w as int, fw as int),
            y_lo as int == clamp_int(y as int, fh as int),
            y_hi as int == clamp_int(y as int + h as int, fh as int),
            y_lo <= j <= y_hi,
            forall|a: int, b: int| old(fb).in_range(a, b) ==> fb.color_at(a, b) == (
            if rect_contains(x as int, y as int, w as int, h as int, a, b) && b < j {
                color
            } else {
                old(fb).color_at(a, b)
            }),
        decreases y_hi - j,
    {
        let mut i: usize = x_lo;
        while i < x_hi
            invariant
                old(fb).wf(),
                fb.wf(),
                fb.spec_width() == old(fb).spec_width(),
                fb.spec_height() == old(fb).spec_height(),
                fw as int == fb.spec_width(),
                fh as int == fb.spec_height(),
                x_lo as int == clamp_int(x as int, fw as int),
                x_hi as int == clamp_int(x as int + w as int, fw as int),
                y_lo as int == clamp_int(y as int, fh as int),
                y_hi as int == clamp_int(y as int + h as int, fh as int),
                x_lo <= i <= x_hi,
                y_lo <= j < y_hi,
                forall|a: int, b: int| old(fb).in_range(a, b) ==> fb.color_at(a, b) == (
                if rect_contains(x as int, y as int, w as int, h as int, a, b) && (b < j || (b == j
                    && a < i)) {
                    color
                } else {
                    old(fb).color_at(a, b)
                }),
            decreases x_hi - i,
        {
            fb.set(i as i32, j as i32, color);
            i = i + 1;
        }
        j = j + 1;
    }
}

/// Rounded division n / d for positive d, halves rounded away from zero.
pub open spec fn round_div(n: int, d: int) -> int
    recommends
        0 < d,
{
    if n >= 0 {
        (2 * n + d) / (2 * d)
    } else {
        -((2 * (-n) + d) / (2 * d))
    }
}

/// The number of unit steps a discretized segment takes along its major axis.
pub open spec fn line_steps(x0: int, y0: int, x1: int, y1: int) -> int {
    vstd::math::max(vstd::math::abs(x1 - x0) as int, vstd::math::abs(y1 - y0) as int)
}

/// The column of the cell the discretized segment passes through at step t.
pub open spec fn line_point_x(x0: int, y0: int, x1: int, y1: int, t: int) -> int {
    if line_steps(x0, y0, x1, y1) == 0 {
        x0
    } else {
        x0 + round_div(t * (x1 - x0), line_steps(x0, y0, x1, y1))
    }
}

/// The row of the cell the discretized segment passes through at step t.
pub open spec fn line_point_y(x0: int, y0: int, x1: int, y1: int, t: int) -> int {
    if line_steps(x0, y0, x1, y1) == 0 {
        y0
    } else {
        y0 + round_div(t * (y1 - y0), line_steps(x0, y0, x1, y1))
    }
}

/// Whether (px, py) is one of the first n cells of the discretized segment
/// from (x0, y0) towards (x1, y1).
pub open spec fn on_segment_prefix(
    x0: int,
    y0: int,
    x1: int,
    y1: int,
    n: int,
    px: int,
    py: int,
) -> bool {
    exists|t: int|
        0 <= t < n && #[trigger] line_point_x(x0, y0, x1, y1, t) == px && line_point_y(
            x0,
            y0,
            x1,
            y1,
            t,
        ) == py
}

/// Whether (px, py) lies on the discretized segment from (x0, y0) to (x1, y1),
/// both endpoints included.
pub open spec fn on_segment(x0: int, y0: int, x1: int, y1: int, px: int, py: int) -> bool {
    on_segment_prefix(x0, y0, x1, y1, line_steps(x0, y0, x1, y1) + 1, px, py)
}

/// A fixed order on the two endpoints of a line: leftmost first, and topmost
/// first within a column.
pub open spec fn line_ordered(x0: int, y0: int, x1: int, y1: int) -> bool {
    x0 < x1 || (x0 == x1 && y0 <= y1)
}

/// The cells of a drawn line. The endpoints are first put in the fixed order,
/// so the cells cannot depend on which endpoint is named first.
pub open spec fn line_contains(x0: int, y0: int, x1: int, y1: int, px: int, py: int) -> bool {
    if line_ordered(x0, y0, x1, y1) {
        on_segment(x0, y0, x1, y1, px, py)
    } else {
        on_segment(x1, y1, x0, y0, px, py)
    }
}

/// Rounded division n / d with halves away from zero, on machine integers.
fn round_div_exec(n: i128, d: i128) -> (r: i128)
    requires
        0 < d <= 0x1_0000_0000,
        -0x1_0000_0000_0000_0000 <= n <= 0x1_0000_0000_0000_0000,
    ensures
        r as int == round_div(n as int, d as int),
{
    let du: u128 = d as u128;
    if n >= 0 {
        let nu: u128 = n as u128;
        let q: u128 = (2 * nu + du) / (2 * du);
        proof {
            assert(q <= nu) by (nonlinear_arith)
                requires
                    0 < du,
                    q == (2 * nu + du) / (2 * du),
            ;
        }
        q as i128
    } else {
        let nu: u128 = (-n) as u128;
        let q: u128 = (2 * nu + du) / (2 * du);
        proof {
            assert(q <= nu) by (nonlinear_arith)
                requires
                    0 < du,
                    q == (2 * nu + du) / (2 * du),
            ;
        }
        -(q as i128)
    }
}

/// Integer line from (x0, y0) to (x1, y1), both endpoints included: one cell
/// per unit step along the major axis, the minor coordinate interpolated with
/// rounding, so the line has no gaps for any slope. The cells drawn do not
/// depend on which endpoint is named first.
pub fn draw_line(fb: &mut Framebuffer, x0: i32, y0: i32, x1: i32, y1: i32, color: Pixel)
    requires
        old(fb).wf(),
    ensures
        final(fb).wf(),
        final(fb).spec_width() == old(fb).spec_width(),
        final(fb).spec_height() == old(fb).spec_height(),
        forall|i: int, j: int| old(fb).in_range(i, j) ==> final(fb).color_at(i, j) == (
        if line_contains(x0 as int, y0 as int, x1 as int, y1 as int, i, j) {
            color
        } else {
            old(fb).color_at(i, j)
        }),
{
    if x1 < x0 || (x1 == x0 && y1 < y0) {
        draw_segment(fb, x1, y1, x0, y0, color);
    } else {
        draw_segment(fb, x0, y0, x1, y1, color);
    }
}

/// The line body, for endpoints already in the fixed order.
fn draw_segment(fb: &mut Framebuffer, x0: i32, y0: i32, x1: i32, y1: i32, color: Pixel)
    requires
        old(fb).wf(),
    ensures
        final(fb).wf(),
        final(fb).spec_width() == old(fb).spec_width(),
        final(fb).spec_height() == old(fb).spec_height(),
        forall|i: int, j: int| old(fb).in_range(i, j) ==> final(fb).color_at(i, j) == (
        if on_segment(x0 as int, y0 as int, x1 as int, y1 as int, i, j) {
            color
        } else {
            old(fb).color_at(i, j)
        }),
{
    let dx: i64 = x1 as i64 - x0 as i64;
    let dy: i64 = y1 as i64 - y0 as i64;
    let adx: i64 = if dx < 0 {
        -dx
    } else {
        dx
    };
    let ady: i64 = if dy < 0 {
        -dy
    } else {
        dy
    };
    let s: i64 = if adx < ady {
        ady
    } else {
        adx
    };
    proof {
        assert(s as int == line_steps(x0 as int, y0 as int, x1 as int, y1 as int));
    }
    if s == 0 {
        fb.set(x0, y0, color);
        proof {
            assert(line_point_x(x0 as int, y0 as int, x1 as int, y1 as int, 0) == x0 as int);
            assert(line_point_y(x0 as int, y0 as int, x1 as int, y1 as int, 0) == y0 as int);
            assert forall|i: int, j: int| old(fb).in_range(i, j) implies fb.color_at(i, j) == (
            if on_segment(x0 as int, y0 as int, x1 as int, y1 as int, i, j) {
                color
            } else {
                old(fb).color_at(i, j)
            }) by {
                if i == x0 as int && j == y0 as int {
                    assert(on_segment(x0 as int, y0 as int, x1 as int, y1 as int, i, j));
                } else {
                    if on_segment(x0 as int, y0 as int, x1 as int, y1 as int, i, j) {
                        let t = choose|t: int|
                            0 <= t < 1 && #[trigger] line_point_x(
                                x0 as int,
                                y0 as int,
                                x1 as int,
                                y1 as int,
                                t,
                            ) == i && line_point_y(x0 as int, y0 as int, x1 as int, y1 as int, t)
                                == j;
                        assert(t == 0);
                        assert(false);
                    }
                }
            }
        }
    } else {
        let mut t: i64 = 0;
        while t <= s
            invariant
                old(fb).wf(),
                fb.wf(),
                fb.spec_width() == old(fb).spec_width(),
                fb.spec_height() == old(fb).spec_height(),
                0 < s <= 0x1_0000_0000,
                s as int == line_steps(x0 as int, y0 as int, x1 as int, y1 as int),
                dx == x1 as int - x0 as int,
                dy == y1 as int - y0 as int,
                0 <= t <= s + 1,
                forall|i: int, j: int| old(fb).in_range(i, j) ==> fb.color_at(i, j) == (
                if on_segment_prefix(x0 as int, y0 as int, x1 as int, y1 as int, t as int, i, j) {
                    color
                } else {
                    old(fb).color_at(i, j)
                }),
            decreases s + 1 - t,
        {
            proof {
                assert((t as i128) * (dx as i128) <= 0x1_0000_0000_0000_0000 && (t as i128) * (
                dx as i128) >= -0x1_0000_0000_0000_0000) by (nonlinear_arith)
                    requires
                        0 <= t <= 0x1_0000_0000,
                        -0x1_0000_0000 <= dx <= 0x1_0000_0000,
                ;
                assert((t as i128) * (dy as i128) <= 0x1_0000_0000_0000_0000 && (t as i128) * (
                dy as i128) >= -0x1_0000_0000_0000_0000) by (nonlinear_arith)
                    requires
                        0 <= t <= 0x1_0000_0000,
                        -0x1_0000_0000 <= dy <= 0x1_0000_0000,
                ;
            }
            let rx: i128 = round_div_exec((t as i128) * (dx as i128), s as i128);
            let ry: i128 = round_div_exec((t as i128) * (dy as i128), s as i128);
            let ghost lx = line_point_x(x0 as int, y0 as int, x1 as int, y1 as int, t as int);
            let ghost ly = line_point_y(x0 as int, y0 as int, x1 as int, y1 as int, t as int);
            proof {
                assert(lx == x0 as int + rx as int);
                assert(ly == y0 as int + ry as int);
            }
            let mut painted: bool = false;
            if -0x1_0000_0000 <= rx && rx <= 0x1_0000_0000 && -0x1_0000_0000 <= ry && ry
                <= 0x1_0000_0000 {
                let px: i128 = x0 as i128 + rx;
                let py: i128 = y0 as i128 + ry;
                if -0x8000_0000 <= px && px <= 0x7fff_ffff && -0x8000_0000 <= py && py
                    <= 0x7fff_ffff {
                    fb.set(px as i32, py as i32, color);
                    painted = true;
                    proof {
                        assert(px as int == lx && py as int == ly);
                    }
                }
            }
            proof {
                // Either the step's cell was painted, or it lies outside every
                // grid position, so nothing needed painting.
                if !painted {
                    assert(forall|i: int, j: int| old(fb).in_range(i, j) ==> i != lx || j != ly);
                }
                assert forall|i: int, j: int| old(fb).in_range(i, j) implies fb.color_at(i, j) == (
                if on_segment_prefix(
                    x0 as int,
                    y0 as int,
                    x1 as int,
                    y1 as int,
                    t as int + 1,
                    i,
                    j,
                ) {
                    color
                } else {
                    old(fb).color_at(i, j)
                }) by {
                    if i == lx && j == ly {
                        assert(line_point_x(x0 as int, y0 as int, x1 as int, y1 as int, t as int)
                            == i);
                        assert(on_segment_prefix(
                            x0 as int,
                            y0 as int,
                            x1 as int,
                            y1 as int,
                            t as int + 1,
                            i,
                            j,
                        ));
                    } else {
                        if on_segment_prefix(
                            x0 as int,
                            y0 as int,
                            x1 as int,
                            y1 as int,
                            t as int + 1,
                            i,
                            j,
                        ) {
                            let t2 = choose|t2: int|
                                0 <= t2 < t as int + 1 && #[trigger] line_point_x(
                                    x0 as int,
                                    y0 as int,
                                    x1 as int,
                                    y1 as int,
                                    t2,
                                ) == i && line_point_y(x0 as int, y0 as int, x1 as int, y1 as int, t2)
                                    == j;
                            assert(t2 < t as int);
                            assert(on_segment_prefix(
                                x0 as int,
                                y0 as int,
                                x1 as int,
                                y1 as int,
                                t as int,
                                i,
                                j,
                            ));
                        }
                    }
                }
            }
            t = t + 1;
        }
    }
}

/// The edge function: the cross product of the edge (a -> b) with the vector
/// from a to p. Its sign says on which side of the edge p lies; zero means p
/// is exactly on the edge's line.
pub open spec fn edge_cross(ax: int, ay: int, bx: int, by: int, px: int, py: int) -> int {
    (bx - ax) * (py - ay) - (by - ay) * (px - ax)
}

/// The least of three values.
pub open spec fn min3(a: int, b: int, c: int) -> int {
    vstd::math::min(a, vstd::math::min(b, c))
}

/// The greatest of three values.
pub open spec fn max3(a: int, b: int, c: int) -> int {
    vstd::math::max(a, vstd::math::max(b, c))
}

/// Whether the three edge functions of the triangle agree in sign at (px, py).
/// A zero cross product counts as agreeing with either sign, so cells exactly
/// on an edge or vertex are inside: the canonical tie-break.
pub open spec fn tri_edges_agree(
    x0: int,
    y0: int,
    x1: int,
    y1: int,
    x2: int,
    y2: int,
    px: int,
    py: int,
) -> bool {
    let e0 = edge_cross(x0, y0, x1, y1, px, py);
    let e1 = edge_cross(x1, y1, x2, y2, px, py);
    let e2 = edge_cross(x2, y2, x0, y0, px, py);
    (e0 >= 0 && e1 >= 0 && e2 >= 0) || (e0 <= 0 && e1 <= 0 && e2 <= 0)
}

/// Whether (px, py) is filled by the triangle with the three given vertices:
/// inside the vertices' bounding box, with all three edge tests agreeing in
/// sign (zero counting as inside), whatever the winding of the vertices.
pub open spec fn tri_contains(
    x0: int,
    y0: int,
    x1: int,
    y1: int,
    x2: int,
    y2: int,
    px: int,
    py: int,
) -> bool {
    min3(x0, x1, x2) <= px <= max3(x0, x1, x2) && min3(y0, y1, y2) <= py <= max3(y0, y1, y2)
        && tri_edges_agree(x0, y0, x1, y1, x2, y2, px, py)
}

/// The edge function on machine integers.
fn edge_cross_exec(ax: i32, ay: i32, bx: i32, by: i32, px: i32, py: i32) -> (e: i128)
    ensures
        e as int == edge_cross(ax as int, ay as int, bx as int, by as int, px as int, py as int),
{
    let u: i128 = bx as i128 - ax as i128;
    let v: i128 = py as i128 - ay as i128;
    let p: i128 = by as i128 - ay as i128;
    let q: i128 = px as i128 - ax as i128;
    proof {
        assert(u * v <= 0x1_0000_0000_0000_0000 && u * v >= -0x1_0000_0000_0000_0000)
            by (nonlinear_arith)
            requires
                -0x1_0000_0000 <= u <= 0x1_0000_0000,
                -0x1_0000_0000 <= v <= 0x1_0000_0000,
        ;
        assert(p * q <= 0x1_0000_0000_0000_0000 && p * q >= -0x1_0000_0000_0000_0000)
            by (nonlinear_arith)
            requires
                -0x1_0000_0000 <= p <= 0x1_0000_0000,
                -0x1_0000_0000 <= q <= 0x1_0000_0000,
        ;
    }
    u * v - p * q
}

fn min3_exec(a: i32, b: i32, c: i32) -> (m: i32)
    ensures
        m as int == min3(a as int, b as int, c as int),
{
    let bc = if b < c {
        b
    } else {
        c
    };
    if a < bc {
        a
    } else {
        bc
    }
}

fn max3_exec(a: i32, b: i32, c: i32) -> (m: i32)
    ensures
        m as int == max3(a as int, b as int, c as int),
{
    let bc = if b > c {
        b
    } else {
        c
    };
    if a > bc {
        a
    } else {
        bc
    }
}

/// Fills the triangle with vertices (x0, y0), (x1, y1), (x2, y2): every grid
/// cell of the vertices' bounding box whose three edge tests agree in sign
/// (zero counting as inside) takes the color; every other cell keeps its old
/// one. Collinear vertices fill only what the edge test naturally produces.
pub fn draw_triangle(
    fb: &mut Framebuffer,
    x0: i32,
    y0: i32,
    x1: i32,
    y1: i32,
    x2: i32,
    y2: i32,
    color: Pixel,
)
    requires
        old(fb).wf(),
    ensures
        final(fb).wf(),
        final(fb).spec_width() == old(fb).spec_width(),
        final(fb).spec_height() == old(fb).spec_height(),
        forall|i: int, j: int| old(fb).in_range(i, j) ==> final(fb).color_at(i, j) == (
        if tri_contains(x0 as int, y0 as int, x1 as int, y1 as int, x2 as int, y2 as int, i, j) {
            color
        } else {
            old(fb).color_at(i, j)
        }),
{
    let fw = fb.width();
    let fh = fb.height();
    let min_x = min3_exec(x0, x1, x2);
    let max_x = max3_exec(x0, x1, x2);
    let min_y = min3_exec(y0, y1, y2);
    let max_y = max3_exec(y0, y1, y2);
    let x_lo = clamp_to(min_x as i128, fw);
    let x_hi = clamp_to(max_x as i128 + 1, fw);
    let y_lo = clamp_to(min_y as i128, fh);
    let y_hi = clamp_to(max_y as i128 + 1, fh);
    let mut j: usize = y_lo;
    while j < y_hi
        invariant
            old(fb).wf(),
            fb.wf(),
            fb.spec_width() == old(fb).spec_width(),
            fb.spec_height() == old(fb).spec_height(),
            fw as int == fb.spec_width(),
            fh as int == fb.spec_height(),
            min_x as int == min3(x0 as int, x1 as int, x2 as int),
            max_x as int == max3(x0 as int, x1 as int, x2 as int),
            min_y as int == min3(y0 as int, y1 as int, y2 as int),
            max_y as int == max3(y0 as int, y1 as int, y2 as int),
            x_lo as int == clamp_int(min_x as int, fw as int),
            x_hi as int == clamp_int(max_x as int + 1, fw as int),
            y_lo as int == clamp_int(min_y as int, fh as int),
            y_hi as int == clamp_int(max_y as int + 1, fh as int),
            y_lo <= j <= y_hi,
            forall|a: int, b: int| old(fb).in_range(a, b) ==> fb.color_at(a, b) == (
            if tri_contains(
                x0 as int,
                y0 as int,
                x1 as int,
                y1 as int,
                x2 as int,
                y2 as int,
                a,
                b,
            ) && b < j {
                color
            } else {
                old(fb).color_at(a, b)
            }),
        decreases y_hi - j,
    {
        let mut i: usize = x_lo;
        while i < x_hi
            invariant
                old(fb).wf(),
                fb.wf(),
                fb.spec_width() == old(fb).spec_width(),
                fb.spec_height() == old(fb).spec_height(),
                fw as int == fb.spec_width(),
                fh as int == fb.spec_height(),
                min_x as int == min3(x0 as int, x1 as int, x2 as int),
                max_x as int == max3(x0 as int, x1 as int, x2 as int),
                min_y as int == min3(y0 as int, y1 as int, y2 as int),
                max_y as int == max3(y0 as int, y1 as int, y2 as int),
                x_lo as int == clamp_int(min_x as int, fw as int),
                x_hi as int == clamp_int(max_x as int + 1, fw as int),
                y_lo as int == clamp_int(min_y as int, fh as int),
                y_hi as int == clamp_int(max_y as int + 1, fh as int),
                x_lo <= i <= x_hi,
                y_lo <= j < y_hi,
                forall|a: int, b: int| old(fb).in_range(a, b) ==> fb.color_at(a, b) == (
                if tri_contains(
                    x0 as int,
                    y0 as int,
                    x1 as int,
                    y1 as int,
                    x2 as int,
                    y2 as int,
                    a,
                    b,
                ) && (b < j || (b == j && a < i)) {
                    color
                } else {
                    old(fb).color_at(a, b)
                }),
            decreases x_hi - i,
        {
            let px: i32 = i as i32;
            let py: i32 = j as i32;
            let e0 = edge_cross_exec(x0, y0, x1, y1, px, py);
            let e1 = edge_cross_exec(x1, y1, x2, y2, px, py);
            let e2 = edge_cross_exec(x2, y2, x0, y0, px, py);
            let inside = (e0 >= 0 && e1 >= 0 && e2 >= 0) || (e0 <= 0 && e1 <= 0 && e2 <= 0);
            proof {
                assert(inside == tri_edges_agree(
                    x0 as int,
                    y0 as int,
                    x1 as int,
                    y1 as int,
                    x2 as int,
                    y2 as int,
                    px as int,
                    py as int,
                ));
            }
            if inside {
                fb.set(px, py, color);
            }
            i = i + 1;
        }
        j = j + 1;
    }
}

// --- laws ---

/// Law: after a pixel write at an in-range position, reading that position
/// gives back exactly the written color; no blending, no rounding loss.
/// The hypothesis is the pointwise relation `draw_pixel` ensures, and the
/// conclusion is the color `get` returns.
pub proof fn lemma_pixel_write_read(fb0: Framebuffer, fb1: Framebuffer, x: int, y: int, c: Pixel)
    requires
        fb0.wf(),
        fb0.in_range(x, y),
        forall|i: int, j: int| fb0.in_range(i, j) ==> fb1.color_at(i, j) == (if i == x && j == y {
            c
        } else {
            fb0.color_at(i, j)
        }),
    ensures
        fb1.color_at(x, y) == c,
{
}

/// Law: a rectangle that covers no grid position leaves the framebuffer
/// unchanged. The hypotheses are `draw_rect`'s ensures and the emptiness of
/// the overlap.
pub proof fn lemma_rect_offgrid_unchanged(
    fb0: Framebuffer,
    fb1: Framebuffer,
    x: int,
    y: int,
    w: int,
    h: int,
    c: Pixel,
)
    requires
        fb0.wf(),
        fb1.wf(),
        fb1.spec_width() == fb0.spec_width(),
        fb1.spec_height() == fb0.spec_height(),
        forall|i: int, j: int| fb0.in_range(i, j) ==> fb1.color_at(i, j) == (if rect_contains(
            x,
            y,
            w,
            h,
            i,
            j,
        ) {
            c
        } else {
            fb0.color_at(i, j)
        }),
        forall|i: int, j: int| fb0.in_range(i, j) ==> !rect_contains(x, y, w, h, i, j),
    ensures
        fb1@ == fb0@,
{
    crate::framebuffer::lemma_same_cells_same_view(fb0, fb1);
}

/// Law: a line that passes through no grid position leaves the framebuffer
/// unchanged.
pub proof fn lemma_line_offgrid_unchanged(
    fb0: Framebuffer,
    fb1: Framebuffer,
    x0: int,
    y0: int,
    x1: int,
    y1: int,
    c: Pixel,
)
    requires
        fb0.wf(),
        fb1.wf(),
        fb1.spec_width() == fb0.spec_width(),
        fb1.spec_height() == fb0.spec_height(),
        forall|i: int, j: int| fb0.in_range(i, j) ==> fb1.color_at(i, j) == (if line_contains(
            x0,
            y0,
            x1,
            y1,
            i,
            j,
        ) {
            c
        } else {
            fb0.color_at(i, j)
        }),
        forall|i: int, j: int| fb0.in_range(i, j) ==> !line_contains(x0, y0, x1, y1, i, j),
    ensures
        fb1@ == fb0@,
{
    crate::framebuffer::lemma_same_cells_same_view(fb0, fb1);
}

/// Law: a triangle that fills no grid position leaves the framebuffer
/// unchanged.
pub proof fn lemma_triangle_offgrid_unchanged(
    fb0: Framebuffer,
    fb1: Framebuffer,
    x0: int,
    y0: int,
    x1: int,
    y1: int,
    x2: int,
    y2: int,
    c: Pixel,
)
    requires
        fb0.wf(),
        fb1.wf(),
        fb1.spec_width() == fb0.spec_width(),
        fb1.spec_height() == fb0.spec_height(),
        forall|i: int, j: int| fb0.in_range(i, j) ==> fb1.color_at(i, j) == (if tri_contains(
            x0,
            y0,
            x1,
            y1,
            x2,
            y2,
            i,
            j,
        ) {
            c
        } else {
            fb0.color_at(i, j)
        }),
        forall|i: int, j: int| fb0.in_range(i, j) ==> !tri_contains(x0, y0, x1, y1, x2, y2, i, j),
    ensures
        fb1@ == fb0@,
{
    crate::framebuffer::lemma_same_cells_same_view(fb0, fb1);
}

/// Law: a line draws the same cells whichever endpoint is named first.
pub proof fn lemma_line_symmetric(x0: int, y0: int, x1: int, y1: int, px: int, py: int)
    ensures
        line_contains(x0, y0, x1, y1, px, py) == line_contains(x1, y1, x0, y0, px, py),
{
}

/// Law: a line from a point to itself touches exactly that one cell.
pub proof fn lemma_line_single_point(x: int, y: int, px: int, py: int)
    ensures
        line_contains(x, y, x, y, px, py) <==> (px == x && py == y),
{
    assert(line_steps(x, y, x, y) == 0);
    assert(line_point_x(x, y, x, y, 0) == x);
    assert(line_point_y(x, y, x, y, 0) == y);
    if line_contains(x, y, x, y, px, py) {
        let t = choose|t: int|
            0 <= t < 1 && #[trigger] line_point_x(x, y, x, y, t) == px && line_point_y(
                x,
                y,
                x,
                y,
                t,
            ) == py;
        assert(t == 0);
    }
}

/// Rounded division of an exact multiple recovers the factor.
proof fn lemma_round_div_multiple(m: int, d: int)
    requires
        1 <= d,
    ensures
        round_div(d * m, d) == m,
{
    if m >= 0 {
        assert(2 * (d * m) + d == m * (2 * d) + d) by (nonlinear_arith);
        vstd::arithmetic::div_mod::lemma_fundamental_div_mod_converse(
            2 * (d * m) + d,
            2 * d,
            m,
            d,
        );
        assert(d * m >= 0) by (nonlinear_arith)
            requires
                1 <= d,
                0 <= m,
        ;
    } else {
        assert(d * m < 0) by (nonlinear_arith)
            requires
                1 <= d,
                m < 0,
        ;
        assert(2 * (-(d * m)) + d == (-m) * (2 * d) + d) by (nonlinear_arith);
        vstd::arithmetic::div_mod::lemma_fundamental_div_mod_converse(
            2 * (-(d * m)) + d,
            2 * d,
            -m,
            d,
        );
    }
}

/// The segment from (x0, y0) to (x1, y1) passes through both endpoints: the
/// first at step 0, the second at the last step.
proof fn lemma_segment_endpoints(x0: int, y0: int, x1: int, y1: int)
    ensures
        on_segment(x0, y0, x1, y1, x0, y0),
        on_segment(x0, y0, x1, y1, x1, y1),
{
    let s = line_steps(x0, y0, x1, y1);
    if s == 0 {
        assert(line_point_x(x0, y0, x1, y1, 0) == x0);
        assert(line_point_y(x0, y0, x1, y1, 0) == y0);
        assert(x1 == x0 && y1 == y0);
    } else {
        lemma_round_div_multiple(0, s);
        assert(s * 0 == 0) by (nonlinear_arith);
        assert(line_point_x(x0, y0, x1, y1, 0) == x0);
        assert(line_point_y(x0, y0, x1, y1, 0) == y0);
        lemma_round_div_multiple(x1 - x0, s);
        lemma_round_div_multiple(y1 - y0, s);
        assert(s * (x1 - x0) == (x1 - x0) * s) by (nonlinear_arith);
        assert(s * (y1 - y0) == (y1 - y0) * s) by (nonlinear_arith);
        assert(line_point_x(x0, y0, x1, y1, s) == x1);
        assert(line_point_y(x0, y0, x1, y1, s) == y1);
    }
}

/// Law: a drawn line includes both of its endpoints.
pub proof fn lemma_line_endpoints(x0: int, y0: int, x1: int, y1: int)
    ensures
        line_contains(x0, y0, x1, y1, x0, y0),
        line_contains(x0, y0, x1, y1, x1, y1),
{
    lemma_segment_endpoints(x0, y0, x1, y1);
    lemma_segment_endpoints(x1, y1, x0, y0);
}

/// Law: neither the vertex named first nor the winding direction matters:
/// the cells a triangle fills are unchanged under rotating the vertices and
/// under swapping two of them.
#[verifier::rlimit(50)]
pub proof fn lemma_triangle_vertex_order(
    x0: int,
    y0: int,
    x1: int,
    y1: int,
    x2: int,
    y2: int,
    px: int,
    py: int,
)
    ensures
        tri_contains(x0, y0, x1, y1, x2, y2, px, py) == tri_contains(
            x1,
            y1,
            x2,
            y2,
            x0,
            y0,
            px,
            py,
        ),
        tri_contains(x0, y0, x1, y1, x2, y2, px, py) == tri_contains(
            x0,
            y0,
            x2,
            y2,
            x1,
            y1,
            px,
            py,
        ),
{
    let e0 = edge_cross(x0, y0, x1, y1, px, py);
    let e1 = edge_cross(x1, y1, x2, y2, px, py);
    let e2 = edge_cross(x2, y2, x0, y0, px, py);
    // Rotating the vertices runs the same three edge tests in another order.
    assert(tri_edges_agree(x1, y1, x2, y2, x0, y0, px, py) == ((e1 >= 0 && e2 >= 0 && e0 >= 0) || (
    e1 <= 0 && e2 <= 0 && e0 <= 0)));
    assert(min3(x1, x2, x0) == min3(x0, x1, x2) && max3(x1, x2, x0) == max3(x0, x1, x2));
    assert(min3(y1, y2, y0) == min3(y0, y1, y2) && max3(y1, y2, y0) == max3(y0, y1, y2));
    // Swapping two vertices reverses the winding: every edge test flips sign,
    // so agreeing in sign is preserved.
    assert((x2 - x0) * (py - y0) - (y2 - y0) * (px - x0) == -((x0 - x2) * (py - y2) - (y0 - y2) * (
    px - x2))) by (nonlinear_arith);
    assert((x1 - x2) * (py - y2) - (y1 - y2) * (px - x2) == -((x2 - x1) * (py - y1) - (y2 - y1) * (
    px - x1))) by (nonlinear_arith);
    assert((x0 - x1) * (py - y1) - (y0 - y1) * (px - x1) == -((x1 - x0) * (py - y0) - (y1 - y0) * (
    px - x0))) by (nonlinear_arith);
    assert(edge_cross(x0, y0, x2, y2, px, py) == -e2);
    assert(edge_cross(x2, y2, x1, y1, px, py) == -e1);
    assert(edge_cross(x1, y1, x0, y0, px, py) == -e0);
    assert(tri_edges_agree(x0, y0, x2, y2, x1, y1, px, py) == ((-e2 >= 0 && -e1 >= 0 && -e0 >= 0)
        || (-e2 <= 0 && -e1 <= 0 && -e0 <= 0)));
    assert(min3(x0, x2, x1) == min3(x0, x1, x2) && max3(x0, x2, x1) == max3(x0, x1, x2));
    assert(min3(y0, y2, y1) == min3(y0, y1, y2) && max3(y0, y2, y1) == max3(y0, y1, y2));
}

/// Rounded division flips sign with its numerator.
proof fn lemma_round_div_neg(n: int, d: int)
    requires
        1 <= d,
    ensures
        round_div(-n, d) == -round_div(n, d),
{
    if n == 0 {
        vstd::arithmetic::div_mod::lemma_basic_div(d, 2 * d);
    }
}

/// Growing a nonnegative numerator by at most the divisor moves the rounded
/// quotient forward by at most one.
proof fn lemma_round_div_nonneg_step(n: int, m: int, d: int)
    requires
        1 <= d,
        0 <= n,
        0 <= m <= d,
    ensures
        round_div(n, d) <= round_div(n + m, d) <= round_div(n, d) + 1,
{
    vstd::arithmetic::div_mod::lemma_div_is_ordered(2 * n + d, 2 * (n + m) + d, 2 * d);
    vstd::arithmetic::div_mod::lemma_div_is_ordered(2 * (n + m) + d, 2 * (n + d) + d, 2 * d);
    let q = (2 * n + d) / (2 * d);
    let r = (2 * n + d) % (2 * d);
    vstd::arithmetic::div_mod::lemma_fundamental_div_mod(2 * n + d, 2 * d);
    vstd::arithmetic::div_mod::lemma_mod_bound(2 * n + d, 2 * d);
    assert(2 * (n + d) + d == (q + 1) * (2 * d) + r) by (nonlinear_arith)
        requires
            2 * n + d == (2 * d) * q + r,
    ;
    vstd::arithmetic::div_mod::lemma_fundamental_div_mod_converse(2 * (n + d) + d, 2 * d, q + 1, r);
}

/// Law: consecutive cells of a discretized segment are adjacent: one step
/// moves each coordinate by at most one, so the line has no gaps, whatever
/// the slope.
pub proof fn lemma_segment_no_gaps(x0: int, y0: int, x1: int, y1: int, t: int)
    requires
        0 <= t < line_steps(x0, y0, x1, y1),
    ensures
        line_point_x(x0, y0, x1, y1, t) - 1 <= line_point_x(x0, y0, x1, y1, t + 1)
            <= line_point_x(x0, y0, x1, y1, t) + 1,
        line_point_y(x0, y0, x1, y1, t) - 1 <= line_point_y(x0, y0, x1, y1, t + 1)
            <= line_point_y(x0, y0, x1, y1, t) + 1,
{
    let s = line_steps(x0, y0, x1, y1);
    lemma_coord_step(x1 - x0, s, t);
    lemma_coord_step(y1 - y0, s, t);
}

/// One interpolation step of a single coordinate moves it by at most one.
proof fn lemma_coord_step(m: int, s: int, t: int)
    requires
        0 <= t < s,
        -s <= m <= s,
    ensures
        round_div(t * m, s) - 1 <= round_div((t + 1) * m, s) <= round_div(t * m, s) + 1,
{
    if m >= 0 {
        assert((t + 1) * m == t * m + m) by (nonlinear_arith);
        assert(t * m >= 0) by (nonlinear_arith)
            requires
                0 <= t,
                0 <= m,
        ;
        lemma_round_div_nonneg_step(t * m, m, s);
    } else {
        assert((t + 1) * (-m) == t * (-m) + (-m)) by (nonlinear_arith);
        assert(t * (-m) >= 0) by (nonlinear_arith)
            requires
                0 <= t,
                m < 0,
        ;
        lemma_round_div_nonneg_step(t * (-m), -m, s);
        lemma_round_div_neg(t * (-m), s);
        lemma_round_div_neg((t + 1) * (-m), s);
        assert(-(t * (-m)) == t * m) by (nonlinear_arith);
        assert(-((t + 1) * (-m)) == (t + 1) * m) by (nonlinear_arith);
    }
}

/// Law: along its major axis a discretized segment advances by exactly one
/// cell per step, from the first endpoint straight to the second.
pub proof fn lemma_segment_major_axis(x0: int, y0: int, x1: int, y1: int, t: int)
    requires
        0 <= t <= line_steps(x0, y0, x1, y1),
    ensures
        x1 - x0 == line_steps(x0, y0, x1, y1) ==> line_point_x(x0, y0, x1, y1, t) == x0 + t,
        x0 - x1 == line_steps(x0, y0, x1, y1) ==> line_point_x(x0, y0, x1, y1, t) == x0 - t,
        y1 - y0 == line_steps(x0, y0, x1, y1) ==> line_point_y(x0, y0, x1, y1, t) == y0 + t,
        y0 - y1 == line_steps(x0, y0, x1, y1) ==> line_point_y(x0, y0, x1, y1, t) == y0 - t,
{
    let s = line_steps(x0, y0, x1, y1);
    if s != 0 {
        lemma_round_div_multiple(t, s);
        lemma_round_div_multiple(-t, s);
        assert(x1 - x0 == s ==> t * (x1 - x0) == s * t) by (nonlinear_arith);
        assert(x0 - x1 == s ==> t * (x1 - x0) == s * (-t)) by (nonlinear_arith);
        assert(y1 - y0 == s ==> t * (y1 - y0) == s * t) by (nonlinear_arith);
        assert(y0 - y1 == s ==> t * (y1 - y0) == s * (-t)) by (nonlinear_arith);
    }
}

/// The cells of the rectangle [x, x+w) x [y, y+h) as a set.
pub open spec fn rect_cells(x: int, y: int, w: int, h: int) -> Set<(int, int)> {
    Set::new(|p: (int, int)| rect_contains(x, y, w, h, p.0, p.1))
}

/// One grid row of a rectangle: the cells (i, j) with x <= i < x + w.
spec fn row_cells(x: int, j: int, w: int) -> Set<(int, int)> {
    Set::new(|p: (int, int)| x <= p.0 < x + w && p.1 == j)
}

/// The size of a union of two finite sets with no common element is the sum
/// of their sizes.
proof fn lemma_disjoint_union_len<A>(s1: Set<A>, s2: Set<A>)
    requires
        s1.finite(),
        s2.finite(),
        forall|a: A| !(#[trigger] s1.contains(a) && s2.contains(a)),
    ensures
        s1.union(s2).finite(),
        s1.union(s2).len() == s1.len() + s2.len(),
    decreases s2.len(),
{
    broadcast use vstd::set::group_set_axioms;

    if s2.is_empty() {
        assert(s1.union(s2) =~= s1);
    } else {
        let a = s2.choose();
        let s2p = s2.remove(a);
        assert(s1.union(s2) =~= s1.union(s2p).insert(a));
        lemma_disjoint_union_len(s1, s2p);
        assert(!s1.union(s2p).contains(a));
    }
}

/// A rectangle row of width w holds exactly w cells.
proof fn lemma_row_cells_len(x: int, j: int, w: int)
    requires
        0 <= w,
    ensures
        row_cells(x, j, w).finite(),
        row_cells(x, j, w).len() == w,
    decreases w,
{
    broadcast use vstd::set::group_set_axioms;

    if w == 0 {
        assert(row_cells(x, j, 0) =~= Set::empty());
    } else {
        lemma_row_cells_len(x, j, w - 1);
        assert(row_cells(x, j, w) =~= row_cells(x, j, w - 1).insert((x + w - 1, j)));
        assert(!row_cells(x, j, w - 1).contains((x + w - 1, j)));
    }
}

/// Law: the rectangle [x, x+w) x [y, y+h) covers exactly w*h cells, so an
/// entirely in-range `draw_rect` touches exactly w*h grid positions.
pub proof fn lemma_rect_cell_count(x: int, y: int, w: int, h: int)
    requires
        0 <= w,
        0 <= h,
    ensures
        rect_cells(x, y, w, h).finite(),
        rect_cells(x, y, w, h).len() == w * h,
    decreases h,
{
    broadcast use vstd::set::group_set_axioms;

    if h == 0 {
        assert(rect_cells(x, y, w, 0) =~= Set::empty());
    } else {
        lemma_rect_cell_count(x, y, w, h - 1);
        lemma_row_cells_len(x, y + h - 1, w);
        assert(rect_cells(x, y, w, h) =~= rect_cells(x, y, w, h - 1).union(
            row_cells(x, y + h - 1, w),
        ));
        lemma_disjoint_union_len(rect_cells(x, y, w, h - 1), row_cells(x, y + h - 1, w));
        assert(w * h == w * (h - 1) + w) by (nonlinear_arith);
    }
}

} // verus!
