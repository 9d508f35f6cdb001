//! Bresenham line walking between integer endpoints, and plotting of the
//! visited points into RGB pixel buffers.
//!
//! The walk keeps an error term `err = dx·(Y + 1) − dy·(X + 1)`, where `dx`
//! and `dy` are the absolute coordinate differences and `X`, `Y` count the
//! steps taken along each axis. Each step moves along x when `2·err ≥ −dy`
//! and along y when `2·err ≤ dx` (with strict comparisons in the strict
//! variant); the walk stops on reaching the end point.

use vstd::prelude::*;

verus! {

pub open spec fn abs(v: int) -> int {
    if v < 0 {
        -v
    } else {
        v
    }
}

/// Coordinate `start` moved `k` steps, forwards or backwards.
pub open spec fn moved(start: int, forward: bool, k: int) -> int {
    if forward {
        start + k
    } else {
        start - k
    }
}

/// The error term after `xs` steps along x and `ys` along y.
pub open spec fn line_err(dx: int, dy: int, xs: int, ys: int) -> int {
    dx * (ys + 1) - dy * (xs + 1)
}

/// Whether the walk steps along x from this state.
pub open spec fn steps_x(dx: int, dy: int, xs: int, ys: int, strict: bool) -> bool {
    if strict {
        2 * line_err(dx, dy, xs, ys) > -dy
    } else {
        2 * line_err(dx, dy, xs, ys) >= -dy
    }
}

/// Whether the walk steps along y from this state.
pub open spec fn steps_y(dx: int, dy: int, xs: int, ys: int, strict: bool) -> bool {
    if strict {
        2 * line_err(dx, dy, xs, ys) < dx
    } else {
        2 * line_err(dx, dy, xs, ys) <= dx
    }
}

/// The points the walk visits from the state with `xs`, `ys` steps taken,
/// with at most `fuel` more steps.
pub open spec fn walk(
    x0: int,
    y0: int,
    fx: bool,
    fy: bool,
    dx: int,
    dy: int,
    xs: int,
    ys: int,
    strict: bool,
    fuel: nat,
) -> Seq<(int, int)>
    decreases fuel,
{
    let p = (moved(x0, fx, xs), moved(y0, fy, ys));
    if (xs == dx && ys == dy) || fuel == 0 {
        seq![p]
    } else {
        seq![p] + walk(
            x0,
            y0,
            fx,
            fy,
            dx,
            dy,
            if steps_x(dx, dy, xs, ys, strict) {
                xs + 1
            } else {
                xs
            },
            if steps_y(dx, dy, xs, ys, strict) {
                ys + 1
            } else {
                ys
            },
            strict,
            (fuel - 1) as nat,
        )
    }
}

/// The points of the line from `(x0, y0)` to `(x1, y1)`, in walking order.
pub open spec fn line_points(x0: int, y0: int, x1: int, y1: int, strict: bool) -> Seq<(int, int)> {
    walk(
        x0,
        y0,
        x0 < x1,
        y0 < y1,
        abs(x1 - x0),
        abs(y1 - y0),
        0,
        0,
        strict,
        (abs(x1 - x0) + abs(y1 - y0)) as nat,
    )
}

/// A coordinate the walk can handle without overflow.
pub open spec fn in_line_range(v: int) -> bool {
    -0x1000_0000_0000_0000 <= v <= 0x1000_0000_0000_0000
}

/// Whether a coordinate is in the range the walk handles.
pub fn in_line_range_exec(v: i64) -> (b: bool)
    ensures
        b == in_line_range(v as int),
{
    -0x1000_0000_0000_0000 <= v && v <= 0x1000_0000_0000_0000
}

/// From any state short of the end the walk makes progress and never
/// passes the end point on either axis.
pub proof fn lemma_step(dx: int, dy: int, xs: int, ys: int, strict: bool)
    requires
        0 <= xs <= dx,
        0 <= ys <= dy,
        !(xs == dx && ys == dy),
    ensures
        steps_x(dx, dy, xs, ys, strict) ==> xs < dx,
        steps_y(dx, dy, xs, ys, strict) ==> ys < dy,
        steps_x(dx, dy, xs, ys, strict) || steps_y(dx, dy, xs, ys, strict),
{
    let e = line_err(dx, dy, xs, ys);
    if xs == dx {
        assert(ys < dy);
        assert(dx * (ys + 1) <= dx * dy) by (nonlinear_arith)
            requires 0 <= ys + 1 <= dy, dx >= 0;
        assert(e <= -dy) by (nonlinear_arith)
            requires e == dx * (ys + 1) - dy * (dx + 1), dx * (ys + 1) <= dx * dy, dy >= 0;
    }
    if ys == dy {
        assert(xs < dx);
        assert(dy * (xs + 1) <= dy * dx) by (nonlinear_arith)
            requires 0 <= xs + 1 <= dx, dy >= 0;
        assert(e >= dx) by (nonlinear_arith)
            requires e == dx * (dy + 1) - dy * (xs + 1), dy * (xs + 1) <= dy * dx, dx >= 0;
    }
}

/// Walking with enough fuel starts at the current point, ends at the end
/// point, and moves at most one step along each axis at a time.
pub proof fn lemma_walk_shape(
    x0: int,
    y0: int,
    fx: bool,
    fy: bool,
    dx: int,
    dy: int,
    xs: int,
    ys: int,
    strict: bool,
    fuel: nat,
)
    requires
        0 <= xs <= dx,
        0 <= ys <= dy,
        fuel >= (dx - xs) + (dy - ys),
    ensures
        ({
            let w = walk(x0, y0, fx, fy, dx, dy, xs, ys, strict, fuel);
            &&& w.len() >= 1
            &&& w[0] == (moved(x0, fx, xs), moved(y0, fy, ys))
            &&& w.last() == (moved(x0, fx, dx), moved(y0, fy, dy))
            &&& forall|i: int|
                0 <= i < w.len() - 1 ==> abs(w[i + 1].0 - w[i].0) <= 1 && abs(w[i + 1].1 - w[i].1) <= 1 && w[i + 1]
                    != #[trigger] w[i]
        }),
    decreases fuel,
{
    let w = walk(x0, y0, fx, fy, dx, dy, xs, ys, strict, fuel);
    if !(xs == dx && ys == dy) {
        lemma_step(dx, dy, xs, ys, strict);
        let nx = if steps_x(dx, dy, xs, ys, strict) {
            xs + 1
        } else {
            xs
        };
        let ny = if steps_y(dx, dy, xs, ys, strict) {
            ys + 1
        } else {
            ys
        };
        lemma_walk_shape(x0, y0, fx, fy, dx, dy, nx, ny, strict, (fuel - 1) as nat);
        let rest = walk(x0, y0, fx, fy, dx, dy, nx, ny, strict, (fuel - 1) as nat);
        assert(w == seq![(moved(x0, fx, xs), moved(y0, fy, ys))] + rest);
        assert forall|i: int| 0 <= i < w.len() - 1 implies abs(w[i + 1].0 - w[i].0) <= 1 && abs(w[i + 1].1 - w[i].1)
            <= 1 && w[i + 1] != #[trigger] w[i] by {
            if i > 0 {
                assert(w[i] == rest[i - 1]);
                assert(w[i + 1] == rest[i]);
            } else {
                assert(w[1] == rest[0]);
            }
        }
    }
}

/// Every point of a walk lies between the current point and the end point
/// on each axis.
pub proof fn lemma_walk_in_box(
    x0: int,
    y0: int,
    fx: bool,
    fy: bool,
    dx: int,
    dy: int,
    xs: int,
    ys: int,
    strict: bool,
    fuel: nat,
)
    requires
        0 <= xs <= dx,
        0 <= ys <= dy,
    ensures
        forall|i: int|
            0 <= i < walk(x0, y0, fx, fy, dx, dy, xs, ys, strict, fuel).len() ==> {
                let p = #[trigger] walk(x0, y0, fx, fy, dx, dy, xs, ys, strict, fuel)[i];
                &&& (fx ==> x0 <= p.0 <= x0 + dx)
                &&& (!fx ==> x0 - dx <= p.0 <= x0)
                &&& (fy ==> y0 <= p.1 <= y0 + dy)
                &&& (!fy ==> y0 - dy <= p.1 <= y0)
            },
    decreases fuel,
{
    let w = walk(x0, y0, fx, fy, dx, dy, xs, ys, strict, fuel);
    if !((xs == dx && ys == dy) || fuel == 0) {
        lemma_step(dx, dy, xs, ys, strict);
        let nx = if steps_x(dx, dy, xs, ys, strict) {
            xs + 1
        } else {
            xs
        };
        let ny = if steps_y(dx, dy, xs, ys, strict) {
            ys + 1
        } else {
            ys
        };
        lemma_walk_in_box(x0, y0, fx, fy, dx, dy, nx, ny, strict, (fuel - 1) as nat);
        let rest = walk(x0, y0, fx, fy, dx, dy, nx, ny, strict, (fuel - 1) as nat);
        assert forall|i: int| 0 <= i < w.len() implies {
            let p = #[trigger] w[i];
            &&& (fx ==> x0 <= p.0 <= x0 + dx)
            &&& (!fx ==> x0 - dx <= p.0 <= x0)
            &&& (fy ==> y0 <= p.1 <= y0 + dy)
            &&& (!fy ==> y0 - dy <= p.1 <= y0)
        } by {
            if i > 0 {
                assert(w[i] == rest[i - 1]);
            }
        }
    }
}

/// Every point of a line lies in the box its end points span.
pub proof fn lemma_line_in_box(x0: int, y0: int, x1: int, y1: int, strict: bool)
    ensures
        forall|i: int|
            0 <= i < line_points(x0, y0, x1, y1, strict).len() ==> {
                let p = #[trigger] line_points(x0, y0, x1, y1, strict)[i];
                &&& (x0 <= p.0 <= x1 || x1 <= p.0 <= x0)
                &&& (y0 <= p.1 <= y1 || y1 <= p.1 <= y0)
            },
{
    lemma_walk_in_box(
        x0,
        y0,
        x0 < x1,
        y0 < y1,
        abs(x1 - x0),
        abs(y1 - y0),
        0,
        0,
        strict,
        (abs(x1 - x0) + abs(y1 - y0)) as nat,
    );
}

/// A line starts at its first end point, ends at its second, and each
/// point is an 8-neighbour of the one before it.
pub proof fn lemma_line_shape(x0: int, y0: int, x1: int, y1: int, strict: bool)
    ensures
        ({
            let w = line_points(x0, y0, x1, y1, strict);
            &&& w.len() >= 1
            &&& w[0] == (x0, y0)
            &&& w.last() == (x1, y1)
            &&& forall|i: int|
                0 <= i < w.len() - 1 ==> abs(w[i + 1].0 - w[i].0) <= 1 && abs(w[i + 1].1 - w[i].1) <= 1 && w[i + 1]
                    != #[trigger] w[i]
        }),
{
    lemma_walk_shape(
        x0,
        y0,
        x0 < x1,
        y0 < y1,
        abs(x1 - x0),
        abs(y1 - y0),
        0,
        0,
        strict,
        (abs(x1 - x0) + abs(y1 - y0)) as nat,
    );
}

/// The points as integer pairs.
pub open spec fn as_int_points(pts: Seq<(i64, i64)>) -> Seq<(int, int)> {
    pts.map_values(|p: (i64, i64)| (p.0 as int, p.1 as int))
}

/// Walks the line from `(x0, y0)` to `(x1, y1)` and returns the visited
/// points.
pub fn walk_line(x0: i64, y0: i64, x1: i64, y1: i64, strict: bool) -> (pts: Vec<(i64, i64)>)
    requires
        in_line_range(x0 as int),
        in_line_range(y0 as int),
        in_line_range(x1 as int),
        in_line_range(y1 as int),
    ensures
        as_int_points(pts@) == line_points(x0 as int, y0 as int, x1 as int, y1 as int, strict),
{
    let ghost fx = x0 < x1;
    let ghost fy = y0 < y1;
    let ghost ddx = abs(x1 - x0);
    let ghost ddy = abs(y1 - y0);
    let ghost full = line_points(x0 as int, y0 as int, x1 as int, y1 as int, strict);
    let dx: i128 = if x0 < x1 {
        x1 as i128 - x0 as i128
    } else {
        x0 as i128 - x1 as i128
    };
    let dy: i128 = if y0 < y1 {
        y1 as i128 - y0 as i128
    } else {
        y0 as i128 - y1 as i128
    };
    let sx: i64 = if x0 < x1 {
        1
    } else {
        -1
    };
    let sy: i64 = if y0 < y1 {
        1
    } else {
        -1
    };
    let mut err: i128 = dx - dy;
    let mut x = x0;
    let mut y = y0;
    let ghost mut xs: int = 0;
    let ghost mut ys: int = 0;
    let ghost mut fuel: nat = (ddx + ddy) as nat;
    let mut pts: Vec<(i64, i64)> = Vec::new();
    proof {
        assert(line_err(dx as int, dy as int, 0, 0) == dx - dy);
    }
    loop
        invariant_except_break
            dx == ddx,
            dy == ddy,
            0 <= dx <= 0x2000_0000_0000_0000,
            0 <= dy <= 0x2000_0000_0000_0000,
            fx == (x0 < x1),
            fy == (y0 < y1),
            sx == (if fx {
                1i64
            } else {
                -1i64
            }),
            sy == (if fy {
                1i64
            } else {
                -1i64
            }),
            x1 == moved(x0 as int, fx, dx as int),
            y1 == moved(y0 as int, fy, dy as int),
            0 <= xs <= dx,
            0 <= ys <= dy,
            x == moved(x0 as int, fx, xs),
            y == moved(y0 as int, fy, ys),
            err == line_err(dx as int, dy as int, xs, ys),
            fuel >= (dx - xs) + (dy - ys),
            full == line_points(x0 as int, y0 as int, x1 as int, y1 as int, strict),
            as_int_points(pts@) + walk(
                x0 as int,
                y0 as int,
                fx,
                fy,
                dx as int,
                dy as int,
                xs,
                ys,
                strict,
                fuel,
            ) == full,
        ensures
            as_int_points(pts@) == full,
        decreases (dx - xs) + (dy - ys),
    {
        let ghost before = as_int_points(pts@);
        let ghost rest = walk(x0 as int, y0 as int, fx, fy, dx as int, dy as int, xs, ys, strict, fuel);
        pts.push((x, y));
        proof {
            assert(as_int_points(pts@) =~= before.push((x as int, y as int)));
        }
        if x == x1 && y == y1 {
            proof {
                assert(xs == dx && ys == dy);
                assert(rest =~= seq![(x as int, y as int)]);
                assert(as_int_points(pts@) =~= before + rest);
            }
            break;
        }
        proof {
            assert(!(xs == dx && ys == dy));
            lemma_step(dx as int, dy as int, xs, ys, strict);
            assert(0 <= dx * (ys + 1) <= 0x2000_0000_0000_0000 * 0x2000_0000_0000_0001) by (nonlinear_arith)
                requires 0 <= dx <= 0x2000_0000_0000_0000, 0 <= ys <= dy, dy <= 0x2000_0000_0000_0000;
            assert(0 <= dy * (xs + 1) <= 0x2000_0000_0000_0000 * 0x2000_0000_0000_0001) by (nonlinear_arith)
                requires 0 <= dy <= 0x2000_0000_0000_0000, 0 <= xs <= dx, dx <= 0x2000_0000_0000_0000;
        }
        let e2 = 2 * err;
        let go_x = if strict {
            e2 > -dy
        } else {
            e2 >= -dy
        };
        let go_y = if strict {
            e2 < dx
        } else {
            e2 <= dx
        };
        let ghost nxs = if go_x {
            xs + 1
        } else {
            xs
        };
        let ghost nys = if go_y {
            ys + 1
        } else {
            ys
        };
        proof {
            assert(go_x == steps_x(dx as int, dy as int, xs, ys, strict));
            assert(go_y == steps_y(dx as int, dy as int, xs, ys, strict));
            assert(rest == seq![(x as int, y as int)] + walk(
                x0 as int,
                y0 as int,
                fx,
                fy,
                dx as int,
                dy as int,
                nxs,
                nys,
                strict,
                (fuel - 1) as nat,
            ));
            assert(line_err(dx as int, dy as int, nxs, nys) == err - (if go_x {
                dy as int
            } else {
                0
            }) + (if go_y {
                dx as int
            } else {
                0
            })) by (nonlinear_arith)
                requires
                    err == dx * (ys + 1) - dy * (xs + 1),
                    nxs == (if go_x {
                        xs + 1
                    } else {
                        xs
                    }),
                    nys == (if go_y {
                        ys + 1
                    } else {
                        ys
                    }),
            ;
        }
        if go_x {
            err = err - dy;
            x = x + sx;
        }
        if go_y {
            err = err + dx;
            y = y + sy;
        }
        proof {
            xs = nxs;
            ys = nys;
            fuel = (fuel - 1) as nat;
            assert(as_int_points(pts@) + walk(
                x0 as int,
                y0 as int,
                fx,
                fy,
                dx as int,
                dy as int,
                xs,
                ys,
                strict,
                fuel,
            ) =~= full);
        }
    }
    pts
}

/// The buffer with pixel `p` of a `w × h` RGB image set to `c`, when `p`
/// lies in the image.
pub open spec fn paint(buf: Seq<u8>, p: (int, int), w: int, h: int, c: (u8, u8, u8)) -> Seq<u8> {
    if 0 <= p.0 < w && 0 <= p.1 < h {
        let i = (p.1 * w + p.0) * 3;
        buf.update(i, c.0).update(i + 1, c.1).update(i + 2, c.2)
    } else {
        buf
    }
}

/// The buffer with every point of `pts` painted in order.
pub open spec fn paint_all(buf: Seq<u8>, pts: Seq<(int, int)>, w: int, h: int, c: (u8, u8, u8)) -> Seq<u8>
    decreases pts.len(),
{
    if pts.len() == 0 {
        buf
    } else {
        paint(paint_all(buf, pts.drop_last(), w, h, c), pts.last(), w, h, c)
    }
}

/// Painting never changes a buffer's length.
pub proof fn lemma_paint_all_len(buf: Seq<u8>, pts: Seq<(int, int)>, w: int, h: int, c: (u8, u8, u8))
    requires
        buf.len() == w * h * 3,
        w >= 0,
        h >= 0,
    ensures
        paint_all(buf, pts, w, h, c).len() == buf.len(),
    decreases pts.len(),
{
    if pts.len() > 0 {
        lemma_paint_all_len(buf, pts.drop_last(), w, h, c);
        let p = pts.last();
        if 0 <= p.0 < w && 0 <= p.1 < h {
            assert((p.1 * w + p.0) * 3 + 2 < w * h * 3) by (nonlinear_arith)
                requires 0 <= p.0 < w, 0 <= p.1 < h;
        }
    }
}

/// Sets one pixel of a `w × h` RGB buffer when it lies in the image.
pub fn set_rgb(buf: &mut Vec<u8>, x: i64, y: i64, w: usize, h: usize, c: (u8, u8, u8))
    requires
        old(buf)@.len() == w * h * 3,
    ensures
        final(buf)@ == paint(old(buf)@, (x as int, y as int), w as int, h as int, c),
{
    if x >= 0 && y >= 0 && (x as u64 as u128) < w as u128 && (y as u64 as u128) < h as u128 {
        let xu = x as usize;
        let yu = y as usize;
        let n = buf.len();
        proof {
            assert(n == w * h * 3);
            assert((yu * w + xu) * 3 + 2 < w * h * 3) by (nonlinear_arith)
                requires 0 <= xu < w, 0 <= yu < h;
            assert(yu * w + xu <= w * h) by (nonlinear_arith)
                requires 0 <= xu < w, 0 <= yu < h;
            assert(yu * w <= w * h) by (nonlinear_arith)
                requires 0 <= xu < w, 0 <= yu < h;
        }
        let i = (yu * w + xu) * 3;
        buf.set(i, c.0);
        buf.set(i + 1, c.1);
        buf.set(i + 2, c.2);
    }
}

/// Paints every point of `pts` into a `w × h` RGB buffer, in order.
pub fn paint_points(buf: &mut Vec<u8>, pts: &Vec<(i64, i64)>, w: usize, h: usize, c: (u8, u8, u8))
    requires
        old(buf)@.len() == w * h * 3,
    ensures
        final(buf)@ == paint_all(old(buf)@, as_int_points(pts@), w as int, h as int, c),
{
    let ghost start = buf@;
    let mut i: usize = 0;
    while i < pts.len()
        invariant
            i <= pts@.len(),
            start.len() == w * h * 3,
            buf@ == paint_all(start, as_int_points(pts@.take(i as int)), w as int, h as int, c),
        decreases pts@.len() - i,
    {
        proof {
            lemma_paint_all_len(start, as_int_points(pts@.take(i as int)), w as int, h as int, c);
            assert(as_int_points(pts@.take(i + 1)).drop_last() =~= as_int_points(pts@.take(i as int)));
        }
        let (x, y) = pts[i];
        set_rgb(buf, x, y, w, h, c);
        i += 1;
    }
    proof {
        assert(pts@.take(pts@.len() as int) =~= pts@);
    }
}

} // verus!
