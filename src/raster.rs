//! Scan conversion of straight segments and quadratic curves given in device pixels.
use vstd::prelude::*;
use crate::canvas::{Canvas, canvas_wf, canvas_width, canvas_height, canvas_pixels, paint, lemma_paint_union};

verus! {

pub open spec fn abs_diff(a: int, b: int) -> int {
    if a <= b { b - a } else { a - b }
}

/// The unit step that leads from `a` toward `b` (`-1` when they are equal).
pub open spec fn step_toward(a: int, b: int) -> int {
    if a < b { 1 } else { -1 }
}

/// How many unit steps in direction `s` lead from `a` to `x`.
pub open spec fn steps_taken(a: int, x: int, s: int) -> int {
    if s == 1 { x - a } else { a - x }
}

/// The pixels that the line walk visits from the state `(x, y, err)` toward
/// `(x2, y2)`, taking at most `fuel` pixels.
pub open spec fn line_walk(
    x: int, y: int, err: int, x2: int, y2: int, dx: int, dy: int, sx: int, sy: int, fuel: nat,
) -> Set<(int, int)>
    decreases fuel,
{
    if fuel == 0 {
        Set::empty()
    } else if x == x2 && y == y2 {
        set![(x, y)]
    } else {
        let move_x = 2 * err > -dy;
        let move_y = 2 * err < dx;
        let nx = if move_x { x + sx } else { x };
        let ny = if move_y { y + sy } else { y };
        let nerr = err - (if move_x { dy } else { 0 }) + (if move_y { dx } else { 0 });
        line_walk(nx, ny, nerr, x2, y2, dx, dy, sx, sy, (fuel - 1) as nat).insert((x, y))
    }
}

/// The pixels of Bresenham's line from `(x1, y1)` to `(x2, y2)`.
pub open spec fn line_points(x1: int, y1: int, x2: int, y2: int) -> Set<(int, int)> {
    let dx = abs_diff(x1, x2);
    let dy = abs_diff(y1, y2);
    line_walk(
        x1, y1, dx - dy, x2, y2, dx, dy, step_toward(x1, x2), step_toward(y1, y2),
        (dx + dy + 1) as nat,
    )
}

/// What holds of every state that the line walk from `(x1, y1)` reaches:
/// it has stepped `i` of `dx` columns and `j` of `dy` rows, and its error term
/// records both.
pub open spec fn walk_state(x1: int, y1: int, x2: int, y2: int, x: int, y: int, err: int) -> bool {
    let dx = abs_diff(x1, x2);
    let dy = abs_diff(y1, y2);
    let i = steps_taken(x1, x, step_toward(x1, x2));
    let j = steps_taken(y1, y, step_toward(y1, y2));
    let m = if dx < dy { dy } else { dx };
    &&& 0 <= i <= dx
    &&& 0 <= j <= dy
    &&& err == dx * (1 + j) - dy * (1 + i)
    &&& -m <= 2 * (err - dx + dy) <= m
}

pub open spec fn walk_measure(x1: int, y1: int, x2: int, y2: int, x: int, y: int) -> int {
    abs_diff(x1, x2) - steps_taken(x1, x, step_toward(x1, x2))
        + abs_diff(y1, y2) - steps_taken(y1, y, step_toward(y1, y2))
}

/// One step of the walk keeps its state valid and brings it closer to the end.
proof fn lemma_walk_step(x1: int, y1: int, x2: int, y2: int, x: int, y: int, err: int)
    requires
        walk_state(x1, y1, x2, y2, x, y, err),
        !(x == x2 && y == y2),
    ensures
        ({
            let dx = abs_diff(x1, x2);
            let dy = abs_diff(y1, y2);
            let move_x = 2 * err > -dy;
            let move_y = 2 * err < dx;
            let nx = if move_x { x + step_toward(x1, x2) } else { x };
            let ny = if move_y { y + step_toward(y1, y2) } else { y };
            let nerr = err - (if move_x { dy } else { 0 }) + (if move_y { dx } else { 0 });
            &&& walk_state(x1, y1, x2, y2, nx, ny, nerr)
            &&& walk_measure(x1, y1, x2, y2, nx, ny) < walk_measure(x1, y1, x2, y2, x, y)
        }),
{
    let dx = abs_diff(x1, x2);
    let dy = abs_diff(y1, y2);
    let i = steps_taken(x1, x, step_toward(x1, x2));
    let j = steps_taken(y1, y, step_toward(y1, y2));
    let move_x = 2 * err > -dy;
    let move_y = 2 * err < dx;
    if i == dx && j < dy {
        assert(dx * (1 + j) - dy * (1 + i) <= -dy) by (nonlinear_arith)
            requires i == dx, j < dy, 0 <= j, 0 <= dx, 0 <= dy;
        assert(!move_x);
    }
    if j == dy && i < dx {
        assert(dx * (1 + j) - dy * (1 + i) >= dx) by (nonlinear_arith)
            requires j == dy, i < dx, 0 <= i, 0 <= dx, 0 <= dy;
        assert(!move_y);
    }
    let ni = if move_x { i + 1 } else { i };
    let nj = if move_y { j + 1 } else { j };
    assert(dx * (1 + nj) == dx * (1 + j) + (if move_y { dx } else { 0 })) by (nonlinear_arith)
        requires nj == (if move_y { j + 1 } else { j });
    assert(dy * (1 + ni) == dy * (1 + i) + (if move_x { dy } else { 0 })) by (nonlinear_arith)
        requires ni == (if move_x { i + 1 } else { i });
}

/// Facts of a walk from a valid state with enough fuel: it reaches the end point,
/// and it stays within the box spanned by the two end points.
proof fn lemma_walk_facts(x1: int, y1: int, x2: int, y2: int, x: int, y: int, err: int, fuel: nat)
    requires
        walk_state(x1, y1, x2, y2, x, y, err),
        fuel > walk_measure(x1, y1, x2, y2, x, y),
    ensures
        ({
            let w = line_walk(
                x, y, err, x2, y2, abs_diff(x1, x2), abs_diff(y1, y2), step_toward(x1, x2),
                step_toward(y1, y2), fuel,
            );
            &&& w.contains((x, y))
            &&& w.contains((x2, y2))
            &&& forall|p: (int, int)| #[trigger] w.contains(p) ==> {
                &&& (if x1 <= x2 { x1 <= p.0 <= x2 } else { x2 <= p.0 <= x1 })
                &&& (if y1 <= y2 { y1 <= p.1 <= y2 } else { y2 <= p.1 <= y1 })
            }
        }),
    decreases fuel,
{
    if !(x == x2 && y == y2) {
        lemma_walk_step(x1, y1, x2, y2, x, y, err);
        let dx = abs_diff(x1, x2);
        let dy = abs_diff(y1, y2);
        let move_x = 2 * err > -dy;
        let move_y = 2 * err < dx;
        let nx = if move_x { x + step_toward(x1, x2) } else { x };
        let ny = if move_y { y + step_toward(y1, y2) } else { y };
        let nerr = err - (if move_x { dy } else { 0 }) + (if move_y { dx } else { 0 });
        lemma_walk_facts(x1, y1, x2, y2, nx, ny, nerr, (fuel - 1) as nat);
    }
}

/// The start of a line walk is a valid state.
proof fn lemma_walk_start(x1: int, y1: int, x2: int, y2: int)
    ensures
        walk_state(x1, y1, x2, y2, x1, y1, abs_diff(x1, x2) - abs_diff(y1, y2)),
        walk_measure(x1, y1, x2, y2, x1, y1) == abs_diff(x1, x2) + abs_diff(y1, y2),
{
}

/// A drawn line holds both of its end points.
pub proof fn lemma_line_endpoints(x1: int, y1: int, x2: int, y2: int)
    ensures
        line_points(x1, y1, x2, y2).contains((x1, y1)),
        line_points(x1, y1, x2, y2).contains((x2, y2)),
{
    lemma_walk_start(x1, y1, x2, y2);
    lemma_walk_facts(
        x1, y1, x2, y2, x1, y1, abs_diff(x1, x2) - abs_diff(y1, y2),
        (abs_diff(x1, x2) + abs_diff(y1, y2) + 1) as nat,
    );
}

/// Every pixel of a line lies in the box spanned by its end points.
pub proof fn lemma_line_in_box(x1: int, y1: int, x2: int, y2: int, p: (int, int))
    requires
        line_points(x1, y1, x2, y2).contains(p),
    ensures
        if x1 <= x2 { x1 <= p.0 <= x2 } else { x2 <= p.0 <= x1 },
        if y1 <= y2 { y1 <= p.1 <= y2 } else { y2 <= p.1 <= y1 },
{
    lemma_walk_start(x1, y1, x2, y2);
    lemma_walk_facts(
        x1, y1, x2, y2, x1, y1, abs_diff(x1, x2) - abs_diff(y1, y2),
        (abs_diff(x1, x2) + abs_diff(y1, y2) + 1) as nat,
    );
}

/// The `t + 1` pixels `run_at(x, y, ax, ay, k)` for `k` in `0..=t`.
pub open spec fn straight_points(x: int, y: int, ax: int, ay: int, t: int) -> Set<(int, int)> {
    Set::new(|p: (int, int)| exists|k: int| 0 <= k <= t && p == #[trigger] run_at(x, y, ax, ay, k))
}

/// The pixel `k` steps along the run from `(x, y)` in direction `(ax, ay)`.
pub open spec fn run_at(x: int, y: int, ax: int, ay: int, k: int) -> (int, int) {
    (x + along(ax, k), y + along(ay, k))
}

/// `k` unit steps in direction `a`, which is `-1`, `0` or `1`.
pub open spec fn along(a: int, k: int) -> int {
    if a == 0 { 0 } else if a > 0 { k } else { -k }
}

/// A walk whose error term never changes moves in one fixed direction, one
/// pixel a step, until it reaches the end.
proof fn lemma_straight_walk(
    x: int, y: int, err: int, x2: int, y2: int, dx: int, dy: int, sx: int, sy: int, fuel: nat,
    ax: int, ay: int, t: int,
)
    requires
        ax == (if 2 * err > -dy { sx } else { 0 }),
        ay == (if 2 * err < dx { sy } else { 0 }),
        sx == 1 || sx == -1,
        sy == 1 || sy == -1,
        ax != 0 || ay != 0,
        err - (if 2 * err > -dy { dy } else { 0 }) + (if 2 * err < dx { dx } else { 0 }) == err,
        0 <= t < fuel,
        x2 == x + along(ax, t),
        y2 == y + along(ay, t),
    ensures
        line_walk(x, y, err, x2, y2, dx, dy, sx, sy, fuel) == straight_points(x, y, ax, ay, t),
    decreases t,
{
    let w = line_walk(x, y, err, x2, y2, dx, dy, sx, sy, fuel);
    if t == 0 {
        assert((x, y) == run_at(x, y, ax, ay, 0));
        assert(straight_points(x, y, ax, ay, t).contains((x, y)));
        assert(w =~= straight_points(x, y, ax, ay, t));
    } else {
        lemma_straight_walk(x + ax, y + ay, err, x2, y2, dx, dy, sx, sy, (fuel - 1) as nat, ax, ay, t - 1);
        let rest = straight_points(x + ax, y + ay, ax, ay, t - 1);
        assert(w == rest.insert((x, y)));
        assert forall|p: (int, int)| w.contains(p) <==> straight_points(x, y, ax, ay, t).contains(p) by {
            if rest.contains(p) {
                let k = choose|k: int| 0 <= k <= t - 1 && p == #[trigger] run_at(x + ax, y + ay, ax, ay, k);
                assert(p == run_at(x, y, ax, ay, k + 1));
            }
            if p == (x, y) {
                assert((x, y) == run_at(x, y, ax, ay, 0));
            }
            if straight_points(x, y, ax, ay, t).contains(p) && p != (x, y) {
                let k = choose|k: int| 0 <= k <= t && p == #[trigger] run_at(x, y, ax, ay, k);
                assert(k != 0);
                assert(p == run_at(x + ax, y + ay, ax, ay, k - 1));
                assert(rest.contains(p));
            }
        }
        assert(w =~= straight_points(x, y, ax, ay, t));
    }
}

/// The direction `(ax, ay)` and length of the run from `(x1, y1)` toward
/// `(x2, y2)`: each step moves one pixel along each axis that differs.
pub open spec fn straight_run(x1: int, y1: int, x2: int, y2: int) -> (int, int, int) {
    let dx = abs_diff(x1, x2);
    let dy = abs_diff(y1, y2);
    let ax = if x1 == x2 { 0 } else { step_toward(x1, x2) };
    let ay = if y1 == y2 { 0 } else { step_toward(y1, y2) };
    (ax, ay, if dx < dy { dy } else { dx })
}

/// A horizontal, vertical or 45-degree line is the straight run of pixels from
/// its start to its end.
proof fn lemma_line_straight(x1: int, y1: int, x2: int, y2: int)
    requires
        x1 == x2 || y1 == y2 || abs_diff(x1, x2) == abs_diff(y1, y2),
    ensures
        line_points(x1, y1, x2, y2) == straight_points(
            x1, y1, straight_run(x1, y1, x2, y2).0, straight_run(x1, y1, x2, y2).1,
            straight_run(x1, y1, x2, y2).2,
        ),
{
    let (ax, ay, t) = straight_run(x1, y1, x2, y2);
    let dx = abs_diff(x1, x2);
    let dy = abs_diff(y1, y2);
    if x1 == x2 && y1 == y2 {
        assert(line_points(x1, y1, x2, y2) =~= straight_points(x1, y1, ax, ay, t)) by {
            assert((x1, y1) == run_at(x1, y1, ax, ay, 0));
        }
    } else {
        assert(x2 == x1 + along(ax, t));
        assert(y2 == y1 + along(ay, t));
        lemma_straight_walk(
            x1, y1, dx - dy, x2, y2, dx, dy, step_toward(x1, x2), step_toward(y1, y2),
            (dx + dy + 1) as nat, ax, ay, t,
        );
    }
}

/// A run read from its far end is the same set of pixels.
proof fn lemma_straight_reversed(x: int, y: int, ax: int, ay: int, t: int)
    ensures
        straight_points(x, y, ax, ay, t) == straight_points(x + along(ax, t), y + along(ay, t), -ax, -ay, t),
{
    let a = straight_points(x, y, ax, ay, t);
    let b = straight_points(x + along(ax, t), y + along(ay, t), -ax, -ay, t);
    assert forall|p: (int, int)| a.contains(p) <==> b.contains(p) by {
        if a.contains(p) {
            let k = choose|k: int| 0 <= k <= t && p == #[trigger] run_at(x, y, ax, ay, k);
            assert(p == run_at(x + along(ax, t), y + along(ay, t), -ax, -ay, t - k));
        }
        if b.contains(p) {
            let k = choose|k: int| 0 <= k <= t && p == #[trigger] run_at(x + along(ax, t), y + along(ay, t), -ax, -ay, k);
            assert(p == run_at(x, y, ax, ay, t - k));
        }
    }
    assert(a =~= b);
}

/// A horizontal, vertical or 45-degree line covers the same pixels whichever
/// end it is drawn from. (Other lines may differ: from `(0, 0)` to `(2, 1)` the
/// walk passes `(1, 0)`, and back it passes `(1, 1)`.)
pub proof fn lemma_line_symmetric_straight(x1: int, y1: int, x2: int, y2: int)
    requires
        x1 == x2 || y1 == y2 || abs_diff(x1, x2) == abs_diff(y1, y2),
    ensures
        line_points(x1, y1, x2, y2) == line_points(x2, y2, x1, y1),
{
    lemma_line_straight(x1, y1, x2, y2);
    lemma_line_straight(x2, y2, x1, y1);
    let (ax, ay, t) = straight_run(x1, y1, x2, y2);
    assert(x2 == x1 + along(ax, t));
    assert(y2 == y1 + along(ay, t));
    lemma_straight_reversed(x1, y1, ax, ay, t);
}

/// Draws the line from `(x1, y1)` to `(x2, y2)` with Bresenham's algorithm:
/// every pixel of `line_points` that lies on the canvas turns black.
pub fn draw_line(canvas: &mut Canvas, x1: u32, y1: u32, x2: u32, y2: u32)
    requires
        canvas_wf(*old(canvas)),
    ensures
        canvas_wf(*final(canvas)),
        canvas_width(*final(canvas)) == canvas_width(*old(canvas)),
        canvas_height(*final(canvas)) == canvas_height(*old(canvas)),
        canvas_pixels(*final(canvas)) == paint(
            canvas_pixels(*old(canvas)),
            line_points(x1 as int, y1 as int, x2 as int, y2 as int),
        ),
{
    let ghost start = canvas_pixels(*canvas);
    let ghost all = line_points(x1 as int, y1 as int, x2 as int, y2 as int);
    let dx: i64 = if x1 <= x2 { x2 as i64 - x1 as i64 } else { x1 as i64 - x2 as i64 };
    let dy: i64 = if y1 <= y2 { y2 as i64 - y1 as i64 } else { y1 as i64 - y2 as i64 };
    let sx: i64 = if x1 < x2 { 1 } else { -1 };
    let sy: i64 = if y1 < y2 { 1 } else { -1 };
    let mut err: i64 = dx - dy;
    let mut x: i64 = x1 as i64;
    let mut y: i64 = y1 as i64;
    let ghost mut visited: Set<(int, int)> = Set::empty();
    let ghost mut fuel: nat = (dx + dy + 1) as nat;
    proof {
        lemma_walk_start(x1 as int, y1 as int, x2 as int, y2 as int);
        crate::canvas::lemma_paint_empty(start);
        assert(visited.union(all) =~= all);
    }
    loop
        invariant
            canvas_wf(*canvas),
            canvas_width(*canvas) == canvas_width(*old(canvas)),
            canvas_height(*canvas) == canvas_height(*old(canvas)),
            start == canvas_pixels(*old(canvas)),
            canvas_pixels(*canvas) == paint(start, visited),
            all == line_points(x1 as int, y1 as int, x2 as int, y2 as int),
            dx == abs_diff(x1 as int, x2 as int),
            dy == abs_diff(y1 as int, y2 as int),
            sx == step_toward(x1 as int, x2 as int),
            sy == step_toward(y1 as int, y2 as int),
            walk_state(x1 as int, y1 as int, x2 as int, y2 as int, x as int, y as int, err as int),
            fuel > walk_measure(x1 as int, y1 as int, x2 as int, y2 as int, x as int, y as int),
            visited.union(
                line_walk(x as int, y as int, err as int, x2 as int, y2 as int, dx as int, dy as int, sx as int, sy as int, fuel),
            ) == all,
        ensures
            canvas_wf(*canvas),
            canvas_width(*canvas) == canvas_width(*old(canvas)),
            canvas_height(*canvas) == canvas_height(*old(canvas)),
            canvas_pixels(*canvas) == paint(start, all),
        decreases fuel,
    {
        let ghost before = canvas_pixels(*canvas);
        canvas.plot(x, y);
        proof {
            lemma_paint_union(start, visited, set![(x as int, y as int)]);
            visited = visited.union(set![(x as int, y as int)]);
        }
        if x == x2 as i64 && y == y2 as i64 {
            proof {
                assert(visited =~= all);
            }
            break;
        }
        proof {
            lemma_walk_step(x1 as int, y1 as int, x2 as int, y2 as int, x as int, y as int, err as int);
        }
        let e2: i64 = 2 * err;
        let ghost old_x = x as int;
        let ghost old_y = y as int;
        let ghost old_err = err as int;
        if e2 > -dy {
            err = err - dy;
            x = x + sx;
        }
        if e2 < dx {
            err = err + dx;
            y = y + sy;
        }
        proof {
            assert(visited.union(
                line_walk(x as int, y as int, err as int, x2 as int, y2 as int, dx as int, dy as int, sx as int, sy as int, (fuel - 1) as nat),
            ) =~= all);
            fuel = (fuel - 1) as nat;
        }
    }
}


/// How many parameter values the curve is sampled at: `t = k / 100` for `k` in `0..=100`.
pub const CURVE_SAMPLES: u64 = 101;

/// The coordinate of the quadratic Bezier curve with control values `a`, `c`, `b`
/// at `t = k / 100`, truncated toward zero.
pub open spec fn bezier_coord(a: int, c: int, b: int, k: int) -> int {
    ((100 - k) * (100 - k) * a + 2 * (100 - k) * k * c + k * k * b) / 10000
}

/// The sample of the curve at `t = k / 100`.
pub open spec fn curve_sample(x1: int, y1: int, cx: int, cy: int, x2: int, y2: int, k: int) -> (int, int) {
    (bezier_coord(x1, cx, x2, k), bezier_coord(y1, cy, y2, k))
}

/// The first `n` samples of the curve.
pub open spec fn curve_samples(x1: int, y1: int, cx: int, cy: int, x2: int, y2: int, n: nat) -> Set<(int, int)>
    decreases n,
{
    if n == 0 {
        Set::empty()
    } else {
        curve_samples(x1, y1, cx, cy, x2, y2, (n - 1) as nat).insert(
            curve_sample(x1, y1, cx, cy, x2, y2, n - 1),
        )
    }
}

/// The pixels of the quadratic curve from `(x1, y1)` through control point
/// `(cx, cy)` to `(x2, y2)`: its samples at `t = 0, 0.01, ..., 1`.
pub open spec fn curve_points(x1: int, y1: int, cx: int, cy: int, x2: int, y2: int) -> Set<(int, int)> {
    curve_samples(x1, y1, cx, cy, x2, y2, CURVE_SAMPLES as nat)
}

/// A curve sample is at least the least and at most the greatest of its control values.
pub proof fn lemma_bezier_bounds(a: int, c: int, b: int, k: int, lo: int, hi: int)
    requires
        0 <= k <= 100,
        lo <= a <= hi,
        lo <= c <= hi,
        lo <= b <= hi,
    ensures
        lo <= bezier_coord(a, c, b, k) <= hi,
{
    let n = (100 - k) * (100 - k) * a + 2 * (100 - k) * k * c + k * k * b;
    assert(10000 * lo <= n <= 10000 * hi) by (nonlinear_arith)
        requires
            n == (100 - k) * (100 - k) * a + 2 * (100 - k) * k * c + k * k * b,
            0 <= k <= 100,
            lo <= a <= hi,
            lo <= c <= hi,
            lo <= b <= hi;
}

/// Every sample lies among the first `n` samples when its index is below `n`;
/// every member of the first `n` samples is a sample with an index below `n`.
proof fn lemma_samples_members(x1: int, y1: int, cx: int, cy: int, x2: int, y2: int, n: nat)
    ensures
        forall|k: int| 0 <= k < n ==> #[trigger] curve_samples(x1, y1, cx, cy, x2, y2, n).contains(
            curve_sample(x1, y1, cx, cy, x2, y2, k),
        ),
        forall|p: (int, int)| #[trigger] curve_samples(x1, y1, cx, cy, x2, y2, n).contains(p) ==>
            exists|k: int| 0 <= k < n && p == curve_sample(x1, y1, cx, cy, x2, y2, k),
    decreases n,
{
    if n > 0 {
        let prev = curve_samples(x1, y1, cx, cy, x2, y2, (n - 1) as nat);
        let cur = curve_samples(x1, y1, cx, cy, x2, y2, n);
        lemma_samples_members(x1, y1, cx, cy, x2, y2, (n - 1) as nat);
        assert(cur == prev.insert(curve_sample(x1, y1, cx, cy, x2, y2, n - 1)));
        assert forall|k: int| 0 <= k < n implies #[trigger] cur.contains(
            curve_sample(x1, y1, cx, cy, x2, y2, k),
        ) by {
            if k < n - 1 {
                assert(prev.contains(curve_sample(x1, y1, cx, cy, x2, y2, k)));
            }
        }
        assert forall|p: (int, int)| #[trigger] cur.contains(p) implies
            exists|k: int| 0 <= k < n && p == curve_sample(x1, y1, cx, cy, x2, y2, k) by {
            if p != curve_sample(x1, y1, cx, cy, x2, y2, n - 1) {
                assert(prev.contains(p));
            }
        }
    }
}

/// The curve starts at its first control value and ends at its last.
proof fn lemma_bezier_ends(a: int, c: int, b: int)
    ensures
        bezier_coord(a, c, b, 0) == a,
        bezier_coord(a, c, b, 100) == b,
{
    assert((100 - 0) * (100 - 0) * a + 2 * (100 - 0) * 0 * c + 0 * 0 * b == 10000 * a) by (nonlinear_arith);
    assert((100 - 100) * (100 - 100) * a + 2 * (100 - 100) * 100 * c + 100 * 100 * b == 10000 * b)
        by (nonlinear_arith);
    assert((10000 * a) / 10000 == a) by (nonlinear_arith);
    assert((10000 * b) / 10000 == b) by (nonlinear_arith);
}

/// A drawn curve holds its start and end points.
pub proof fn lemma_curve_endpoints(x1: int, y1: int, cx: int, cy: int, x2: int, y2: int)
    ensures
        curve_points(x1, y1, cx, cy, x2, y2).contains((x1, y1)),
        curve_points(x1, y1, cx, cy, x2, y2).contains((x2, y2)),
{
    lemma_samples_members(x1, y1, cx, cy, x2, y2, CURVE_SAMPLES as nat);
    lemma_bezier_ends(x1, cx, x2);
    lemma_bezier_ends(y1, cy, y2);
    assert(curve_sample(x1, y1, cx, cy, x2, y2, 0) == (x1, y1));
    assert(curve_sample(x1, y1, cx, cy, x2, y2, 100) == (x2, y2));
}

/// Every pixel of a curve lies in the box spanned by its three control points.
pub proof fn lemma_curve_in_box(
    x1: int, y1: int, cx: int, cy: int, x2: int, y2: int, p: (int, int), lo: int, hi: int,
)
    requires
        curve_points(x1, y1, cx, cy, x2, y2).contains(p),
        lo <= x1 <= hi,
        lo <= cx <= hi,
        lo <= x2 <= hi,
    ensures
        lo <= p.0 <= hi,
{
    lemma_samples_members(x1, y1, cx, cy, x2, y2, CURVE_SAMPLES as nat);
    let k = choose|k: int| 0 <= k < CURVE_SAMPLES && p == curve_sample(x1, y1, cx, cy, x2, y2, k);
    lemma_bezier_bounds(x1, cx, x2, k, lo, hi);
}

/// The curve coordinate at `t = k / 100`, computed exactly and truncated.
fn bezier_at(a: u32, c: u32, b: u32, k: u64) -> (r: u64)
    requires
        k <= 100,
    ensures
        r == bezier_coord(a as int, c as int, b as int, k as int),
{
    let u: u64 = 100 - k;
    proof {
        assert(u * u * a <= 10000 * 0xffff_ffff) by (nonlinear_arith)
            requires u <= 100, a <= 0xffff_ffff;
        assert(2 * u * k * c <= 20000 * 0xffff_ffff) by (nonlinear_arith)
            requires u <= 100, k <= 100, c <= 0xffff_ffff;
        assert(k * k * b <= 10000 * 0xffff_ffff) by (nonlinear_arith)
            requires k <= 100, b <= 0xffff_ffff;
        assert(u * u <= 10000) by (nonlinear_arith) requires u <= 100;
        assert(2 * u * k <= 20000) by (nonlinear_arith) requires u <= 100, k <= 100;
        assert(k * k <= 10000) by (nonlinear_arith) requires k <= 100;
    }
    (u * u * a as u64 + 2 * u * k * c as u64 + k * k * b as u64) / 10000
}

/// Draws the quadratic curve from `(x1, y1)` through control point `(cx, cy)` to
/// `(x2, y2)` by sampling it at 101 evenly spaced parameter values: every sample
/// that lies on the canvas turns black.
pub fn draw_quad_curve(canvas: &mut Canvas, x1: u32, y1: u32, cx: u32, cy: u32, x2: u32, y2: u32)
    requires
        canvas_wf(*old(canvas)),
    ensures
        canvas_wf(*final(canvas)),
        canvas_width(*final(canvas)) == canvas_width(*old(canvas)),
        canvas_height(*final(canvas)) == canvas_height(*old(canvas)),
        canvas_pixels(*final(canvas)) == paint(
            canvas_pixels(*old(canvas)),
            curve_points(x1 as int, y1 as int, cx as int, cy as int, x2 as int, y2 as int),
        ),
{
    let ghost start = canvas_pixels(*canvas);
    proof {
        crate::canvas::lemma_paint_empty(start);
    }
    let mut k: u64 = 0;
    while k < CURVE_SAMPLES
        invariant
            k <= CURVE_SAMPLES,
            canvas_wf(*canvas),
            canvas_width(*canvas) == canvas_width(*old(canvas)),
            canvas_height(*canvas) == canvas_height(*old(canvas)),
            start == canvas_pixels(*old(canvas)),
            canvas_pixels(*canvas) == paint(
                start,
                curve_samples(x1 as int, y1 as int, cx as int, cy as int, x2 as int, y2 as int, k as nat),
            ),
        decreases CURVE_SAMPLES - k,
    {
        let x = bezier_at(x1, cx, x2, k);
        let y = bezier_at(y1, cy, y2, k);
        proof {
            lemma_bezier_bounds(x1 as int, cx as int, x2 as int, k as int, 0, 0xffff_ffff);
            lemma_bezier_bounds(y1 as int, cy as int, y2 as int, k as int, 0, 0xffff_ffff);
            lemma_paint_union(
                start,
                curve_samples(x1 as int, y1 as int, cx as int, cy as int, x2 as int, y2 as int, k as nat),
                set![(x as int, y as int)],
            );
            assert(curve_samples(x1 as int, y1 as int, cx as int, cy as int, x2 as int, y2 as int, k as nat).union(
                set![(x as int, y as int)],
            ) =~= curve_samples(x1 as int, y1 as int, cx as int, cy as int, x2 as int, y2 as int, (k + 1) as nat));
        }
        canvas.plot(x as i64, y as i64);
        k = k + 1;
    }
}

} // verus!
