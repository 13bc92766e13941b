//! Straight lines drawn into a frame buffer with integer steps only.
use vstd::prelude::*;

use crate::framebuffer::{pixel_index, FrameBuffer};

verus! {

/// How far a line has moved along its minor axis after `k` unit steps along
/// its major axis, where the line spans `d_major` steps along the major axis
/// and `d_minor` along the minor one (`d_minor <= d_major`). The error term
/// starts at half the minor extent and gains `d_minor` per step; the line
/// steps once each time it passes `d_major`.
pub open spec fn minor_steps(k: int, d_major: int, d_minor: int) -> int {
    let c = d_minor / 2 + k * d_minor;
    if c <= d_major {
        0
    } else {
        (c - 1) / d_major
    }
}

/// The absolute value of an integer.
pub open spec fn abs(v: int) -> int {
    if v < 0 {
        -v
    } else {
        v
    }
}

/// Pixel `(px, py)` lies on the line from `(x0, y0)` to `(x1, y1)` drawn along
/// the x axis (`x0 <= x1`, the line no steeper than a diagonal): one pixel for
/// each column from `x0` up to, but not including, `x1`.
pub open spec fn on_x_line(x0: int, y0: int, x1: int, y1: int, px: int, py: int) -> bool {
    let dir: int = if y0 < y1 { 1 } else { -1 };
    &&& x0 <= px < x1
    &&& py == y0 + dir * minor_steps(px - x0, x1 - x0, abs(y1 - y0))
}

/// Pixel `(px, py)` lies on the line from `(x0, y0)` to `(x1, y1)` drawn along
/// the y axis (`y0 <= y1`): the x-axis line with the axes exchanged.
pub open spec fn on_y_line(x0: int, y0: int, x1: int, y1: int, px: int, py: int) -> bool {
    on_x_line(y0, x0, y1, x1, py, px)
}

/// Pixel `(px, py)` lies on the line from `(sx, sy)` to `(ex, ey)`: a single
/// pixel when the ends coincide; else stepped along the longer axis, from
/// the end with the smaller coordinate on that axis, the far end excluded.
pub open spec fn on_line(sx: int, sy: int, ex: int, ey: int, px: int, py: int) -> bool {
    if sx == ex && sy == ey {
        px == sx && py == sy
    } else if abs(ex - sx) >= abs(ey - sy) {
        if sx > ex {
            on_x_line(ex, ey, sx, sy, px, py)
        } else {
            on_x_line(sx, sy, ex, ey, px, py)
        }
    } else {
        if sy > ey {
            on_y_line(ex, ey, sx, sy, px, py)
        } else {
            on_y_line(sx, sy, ex, ey, px, py)
        }
    }
}

/// Two places of the grid with the same index are the same place.
proof fn lemma_index_injective(width: int, x1: int, y1: int, x2: int, y2: int)
    requires
        0 <= x1 < width,
        0 <= x2 < width,
        0 <= y1,
        0 <= y2,
        pixel_index(width, x1, y1) == pixel_index(width, x2, y2),
    ensures
        x1 == x2 && y1 == y2,
{
    if y1 < y2 {
        assert(y1 * width + x1 < y2 * width + x2) by (nonlinear_arith)
            requires
                0 <= x1 < width,
                0 <= x2,
                y1 < y2,
        ;
    } else if y2 < y1 {
        assert(y2 * width + x2 < y1 * width + x1) by (nonlinear_arith)
            requires
                0 <= x2 < width,
                0 <= x1,
                y2 < y1,
        ;
    }
}

/// The error term `fy = c - m * d_major`, kept in `[0, d_major]` and zero only
/// while `c` is, fixes the number of minor steps `m`.
proof fn lemma_minor_steps(c: int, m: int, d_major: int, fy: int)
    requires
        d_major > 0,
        m >= 0,
        fy == c - m * d_major,
        0 <= fy <= d_major,
        fy == 0 ==> c == 0,
    ensures
        m == (if c <= d_major { 0 } else { (c - 1) / d_major }),
{
    if m == 0 {
    } else {
        assert(m * d_major >= d_major) by (nonlinear_arith)
            requires
                m >= 1,
                d_major > 0,
        ;
        assert(fy > 0) by {
            if fy == 0 {
                assert(m * d_major > 0) by (nonlinear_arith)
                    requires
                        m >= 1,
                        d_major > 0,
                ;
            }
        }
        assert(c - 1 == m * d_major + (fy - 1));
        vstd::arithmetic::div_mod::lemma_fundamental_div_mod_converse(
            c - 1,
            d_major,
            m,
            fy - 1,
        );
    }
}

/// Draws the line from `(sx, sy)` to `(ex, ey)` in `ink`, pixels outside the
/// buffer left out. A line whose ends coincide is the single pixel there,
/// which must lie inside the buffer.
pub fn draw_line<T: Copy>(f: &mut FrameBuffer<T>, sx: i32, sy: i32, ex: i32, ey: i32, ink: T)
    requires
        old(f).wf(),
        (sx == ex && sy == ey) ==> (0 <= sx < old(f).spec_width() && 0 <= sy < old(f).spec_height()),
    ensures
        final(f).wf(),
        final(f).spec_width() == old(f).spec_width(),
        final(f).spec_height() == old(f).spec_height(),
        forall|px: int, py: int|
            0 <= px < old(f).spec_width() && 0 <= py < old(f).spec_height() ==> #[trigger] final(f).pixel(px, py) == if on_line(sx as int, sy as int, ex as int, ey as int, px, py) {
                ink
            } else {
                old(f).pixel(px, py)
            },
{
    let ghost w = f.spec_width();
    let ghost h = f.spec_height();
    let dx: i64 = ex as i64 - sx as i64;
    let dy: i64 = ey as i64 - sy as i64;
    let adx: i64 = if dx < 0 { -dx } else { dx };
    let ady: i64 = if dy < 0 { -dy } else { dy };
    if sx == ex && sy == ey {
        let ghost before = *f;
        f.plot_pixel(sx as usize, sy as usize, ink);
        assert forall|px: int, py: int| 0 <= px < w && 0 <= py < h implies #[trigger] f.pixel(
            px,
            py,
        ) == if on_line(sx as int, sy as int, ex as int, ey as int, px, py) {
            ink
        } else {
            before.pixel(px, py)
        } by {
            crate::framebuffer::lemma_index_in_grid(w, h, px, py);
            crate::framebuffer::lemma_index_in_grid(w, h, sx as int, sy as int);
            if pixel_index(w, px, py) == pixel_index(w, sx as int, sy as int) {
                lemma_index_injective(w, px, py, sx as int, sy as int);
            } else {
                assert(f.pixel(px, py) == before.pixel(px, py));
            }
        }
    } else if adx >= ady {
        if sx > ex {
            draw_x_line(f, ex, ey, sx, sy, ink);
        } else {
            draw_x_line(f, sx, sy, ex, ey, ink);
        }
    } else {
        if sy > ey {
            draw_y_line(f, ex, ey, sx, sy, ink);
        } else {
            draw_y_line(f, sx, sy, ex, ey, ink);
        }
    }
}

/// Draws the x-axis line from `(x0, y0)` to `(x1, y1)`.
fn draw_x_line<T: Copy>(f: &mut FrameBuffer<T>, x0: i32, y0: i32, x1: i32, y1: i32, ink: T)
    requires
        old(f).wf(),
        x0 <= x1,
        abs(y1 - y0) <= x1 - x0,
    ensures
        final(f).wf(),
        final(f).spec_width() == old(f).spec_width(),
        final(f).spec_height() == old(f).spec_height(),
        forall|px: int, py: int|
            0 <= px < old(f).spec_width() && 0 <= py < old(f).spec_height() ==> #[trigger] final(f).pixel(px, py) == if on_x_line(x0 as int, y0 as int, x1 as int, y1 as int, px, py) {
                ink
            } else {
                old(f).pixel(px, py)
            },
{
    let ghost start = *f;
    let ghost w = f.spec_width();
    let ghost h = f.spec_height();
    let dir: i64 = if y0 < y1 { 1 } else { -1 };
    let dy: i64 = (y1 as i64 - y0 as i64) * dir;
    let dx: i64 = x1 as i64 - x0 as i64;
    let mut x: i64 = x0 as i64;
    let mut y: i64 = y0 as i64;
    let mut fy: i64 = dy / 2;
    let ghost mut m: int = 0;
    let ghost mut c: int = dy / 2;
    let width = f.width();
    let height = f.height();
    while x != x1 as i64
        invariant
            f.wf(),
            f.spec_width() == w,
            f.spec_height() == h,
            width == w,
            height == h,
            x0 <= x <= x1,
            dy == abs(y1 - y0),
            dx == x1 - x0,
            dy <= dx,
            dir == (if y0 < y1 { 1int } else { -1int }),
            0 <= m <= x - x0,
            c == dy / 2 + (x - x0) * dy,
            fy == c - m * dx,
            0 <= fy <= dx,
            fy == 0 ==> c == 0,
            y == y0 + dir * m,
            y0 - m <= y <= y0 + m,
            forall|px: int, py: int|
                0 <= px < w && 0 <= py < h ==> #[trigger] f.pixel(px, py) == if x0 <= px < x
                    && on_x_line(x0 as int, y0 as int, x1 as int, y1 as int, px, py) {
                    ink
                } else {
                    start.pixel(px, py)
                },
        decreases x1 - x,
    {
        proof {
            lemma_minor_steps(c, m, dx as int, fy as int);
        }
        if y >= 0 && (y as u64) < (height as u64) && x >= 0 && (x as u64) < (width as u64) {
            let ghost before = *f;
            f.plot_pixel(x as usize, y as usize, ink);
            assert forall|px: int, py: int| 0 <= px < w && 0 <= py < h implies #[trigger] f.pixel(
                px,
                py,
            ) == if x0 <= px < x + 1 && on_x_line(
                x0 as int,
                y0 as int,
                x1 as int,
                y1 as int,
                px,
                py,
            ) {
                ink
            } else {
                start.pixel(px, py)
            } by {
                crate::framebuffer::lemma_index_in_grid(w, h, px, py);
                crate::framebuffer::lemma_index_in_grid(w, h, x as int, y as int);
                assert(before.pixel(px, py) == if x0 <= px < x && on_x_line(
                    x0 as int,
                    y0 as int,
                    x1 as int,
                    y1 as int,
                    px,
                    py,
                ) {
                    ink
                } else {
                    start.pixel(px, py)
                });
                if pixel_index(w, px, py) == pixel_index(w, x as int, y as int) {
                    lemma_index_injective(w, px, py, x as int, y as int);
                    assert(on_x_line(x0 as int, y0 as int, x1 as int, y1 as int, px, py));
                }
            }
        }
        proof {
            assert((x + 1 - x0) * dy == (x - x0) * dy + dy) by (nonlinear_arith);
            c = c + dy;
        }
        x = x + 1;
        fy = fy + dy;
        if fy > dx {
            y = y + dir;
            fy = fy - dx;
            proof {
                assert(y == y0 + dir * (m + 1)) by (nonlinear_arith)
                    requires
                        y == y0 + dir * m + dir,
                ;
                m = m + 1;
                assert(fy == c - m * dx) by (nonlinear_arith)
                    requires
                        fy == c - (m - 1) * dx - dx,
                ;
            }
        }
    }
}

/// Draws the y-axis line from `(x0, y0)` to `(x1, y1)`.
fn draw_y_line<T: Copy>(f: &mut FrameBuffer<T>, x0: i32, y0: i32, x1: i32, y1: i32, ink: T)
    requires
        old(f).wf(),
        y0 <= y1,
        abs(x1 - x0) <= y1 - y0,
    ensures
        final(f).wf(),
        final(f).spec_width() == old(f).spec_width(),
        final(f).spec_height() == old(f).spec_height(),
        forall|px: int, py: int|
            0 <= px < old(f).spec_width() && 0 <= py < old(f).spec_height() ==> #[trigger] final(f).pixel(px, py) == if on_y_line(x0 as int, y0 as int, x1 as int, y1 as int, px, py) {
                ink
            } else {
                old(f).pixel(px, py)
            },
{
    let ghost start = *f;
    let ghost w = f.spec_width();
    let ghost h = f.spec_height();
    let dir: i64 = if x0 < x1 { 1 } else { -1 };
    let dy: i64 = y1 as i64 - y0 as i64;
    let dx: i64 = (x1 as i64 - x0 as i64) * dir;
    let mut y: i64 = y0 as i64;
    let mut x: i64 = x0 as i64;
    let mut fx: i64 = dx / 2;
    let ghost mut m: int = 0;
    let ghost mut c: int = dx / 2;
    let width = f.width();
    let height = f.height();
    while y != y1 as i64
        invariant
            f.wf(),
            f.spec_width() == w,
            f.spec_height() == h,
            width == w,
            height == h,
            y0 <= y <= y1,
            dx == abs(x1 - x0),
            dy == y1 - y0,
            dx <= dy,
            dir == (if x0 < x1 { 1int } else { -1int }),
            0 <= m <= y - y0,
            c == dx / 2 + (y - y0) * dx,
            fx == c - m * dy,
            0 <= fx <= dy,
            fx == 0 ==> c == 0,
            x == x0 + dir * m,
            x0 - m <= x <= x0 + m,
            forall|px: int, py: int|
                0 <= px < w && 0 <= py < h ==> #[trigger] f.pixel(px, py) == if y0 <= py < y
                    && on_y_line(x0 as int, y0 as int, x1 as int, y1 as int, px, py) {
                    ink
                } else {
                    start.pixel(px, py)
                },
        decreases y1 - y,
    {
        proof {
            lemma_minor_steps(c, m, dy as int, fx as int);
        }
        if y >= 0 && (y as u64) < (height as u64) && x >= 0 && (x as u64) < (width as u64) {
            let ghost before = *f;
            f.plot_pixel(x as usize, y as usize, ink);
            assert forall|px: int, py: int| 0 <= px < w && 0 <= py < h implies #[trigger] f.pixel(
                px,
                py,
            ) == if y0 <= py < y + 1 && on_y_line(
                x0 as int,
                y0 as int,
                x1 as int,
                y1 as int,
                px,
                py,
            ) {
                ink
            } else {
                start.pixel(px, py)
            } by {
                crate::framebuffer::lemma_index_in_grid(w, h, px, py);
                crate::framebuffer::lemma_index_in_grid(w, h, x as int, y as int);
                assert(before.pixel(px, py) == if y0 <= py < y && on_y_line(
                    x0 as int,
                    y0 as int,
                    x1 as int,
                    y1 as int,
                    px,
                    py,
                ) {
                    ink
                } else {
                    start.pixel(px, py)
                });
                if pixel_index(w, px, py) == pixel_index(w, x as int, y as int) {
                    lemma_index_injective(w, px, py, x as int, y as int);
                    assert(on_y_line(x0 as int, y0 as int, x1 as int, y1 as int, px, py));
                }
            }
        }
        proof {
            assert((y + 1 - y0) * dx == (y - y0) * dx + dx) by (nonlinear_arith);
            c = c + dx;
        }
        y = y + 1;
        fx = fx + dx;
        if fx > dy {
            x = x + dir;
            fx = fx - dy;
            proof {
                assert(x == x0 + dir * (m + 1)) by (nonlinear_arith)
                    requires
                        x == x0 + dir * m + dir,
                ;
                m = m + 1;
                assert(fx == c - m * dy) by (nonlinear_arith)
                    requires
                        fx == c - (m - 1) * dy - dy,
                ;
            }
        }
    }
}

} // verus!
