//! The spiral erase, followed step by step: from the bottom-left corner of
//! a rectangle whose cells are all `ERASING`, it clears each cell once and
//! finishes after exactly as many steps as the rectangle has cells.
use vstd::prelude::*;

use crate::field::{cell_at, in_grid, Cell, EMPTY, FIELD_H, FIELD_W};
use crate::model::{spiral_step, step_x, step_y, turn, Direction, ErasingEffect, Point, ERASING};

verus! {

/// The cells, the effect, whether it has finished, and the score it has
/// earned after `n` steps of the spiral; nothing changes after it finishes.
pub open spec fn spiral_run(s: Seq<Cell>, e: ErasingEffect, n: nat) -> (
    Seq<Cell>,
    ErasingEffect,
    bool,
    int,
)
    decreases n,
{
    if n == 0 {
        (s, e, false, 0)
    } else {
        let p = spiral_run(s, e, (n - 1) as nat);
        if p.2 {
            p
        } else {
            let st = spiral_step(p.0, p.1);
            (st.0, st.1, st.2, p.3 + if st.2 { p.1.spec_area() } else { 0 })
        }
    }
}

/// The rectangle lies on the grid and is at least two cells wide and tall.
pub open spec fn rect_on_grid(e: ErasingEffect) -> bool {
    &&& e.left < e.right < FIELD_W
    &&& e.top < e.bottom < FIELD_H
}

/// The effect as it starts on its rectangle.
pub open spec fn spiral_start(s: Seq<Cell>, e: ErasingEffect) -> bool {
    &&& s.len() == FIELD_W * FIELD_H
    &&& rect_on_grid(e)
    &&& e.cursor == Point { x: e.left, y: e.bottom }
    &&& e.dir == Direction::Up
    &&& forall|x: int, y: int| e.contains(x, y) ==> #[trigger] cell_at(s, x, y) == ERASING
}

/// The cells of the current leg: from the cursor to the end of the line it
/// sweeps, given the inner box `x0..=x1` by `y0..=y1`.
spec fn in_leg(e: ErasingEffect, x0: int, x1: int, y0: int, y1: int, x: int, y: int) -> bool {
    let cx = e.cursor.x as int;
    let cy = e.cursor.y as int;
    match e.dir {
        Direction::Up => x == cx && y0 <= y <= cy,
        Direction::Right => y == cy && cx <= x <= x1,
        Direction::Down => x == cx && cy <= y <= y1,
        Direction::Left => y == cy && x0 <= x <= cx,
    }
}

spec fn in_box(x0: int, x1: int, y0: int, y1: int, x: int, y: int) -> bool {
    x0 <= x <= x1 && y0 <= y <= y1
}

spec fn leg_len(e: ErasingEffect, x0: int, x1: int, y0: int, y1: int) -> int {
    let cx = e.cursor.x as int;
    let cy = e.cursor.y as int;
    match e.dir {
        Direction::Up => cy - y0 + 1,
        Direction::Right => x1 - cx + 1,
        Direction::Down => y1 - cy + 1,
        Direction::Left => cx - x0 + 1,
    }
}

spec fn box_size(x0: int, x1: int, y0: int, y1: int) -> int {
    if x0 <= x1 && y0 <= y1 {
        (x1 - x0 + 1) * (y1 - y0 + 1)
    } else {
        0
    }
}

/// How the leg lies against the inner box, for each direction.
spec fn shape_ok(e: ErasingEffect, x0: int, x1: int, y0: int, y1: int) -> bool {
    let cx = e.cursor.x as int;
    let cy = e.cursor.y as int;
    &&& rect_on_grid(e)
    &&& e.contains(cx, cy)
    &&& e.left <= x0 && x1 <= e.right && e.top <= y0 && y1 <= e.bottom
    &&& match e.dir {
        Direction::Up => x0 == cx + 1 && y0 <= cy,
        Direction::Right => y0 == cy + 1 && x0 <= cx <= x1,
        Direction::Down => x1 == cx - 1 && y0 <= cy <= y1,
        Direction::Left => y1 == cy - 1 && x0 <= cx <= x1,
    }
}

/// Mid-spiral: the rectangle's cells that are still `ERASING` are the
/// current leg and the inner box, the others are `EMPTY`, and nothing
/// outside the rectangle has changed since `s0`.
spec fn spiral_inv(
    s0: Seq<Cell>,
    s: Seq<Cell>,
    e: ErasingEffect,
    x0: int,
    x1: int,
    y0: int,
    y1: int,
) -> bool {
    &&& s.len() == FIELD_W * FIELD_H
    &&& shape_ok(e, x0, x1, y0, y1)
    &&& forall|x: int, y: int|
        e.contains(x, y) ==> (#[trigger] cell_at(s, x, y) == ERASING <==> (in_leg(
            e,
            x0,
            x1,
            y0,
            y1,
            x,
            y,
        ) || in_box(x0, x1, y0, y1, x, y)))
    &&& forall|x: int, y: int|
        e.contains(x, y) ==> #[trigger] cell_at(s, x, y) == ERASING || cell_at(s, x, y) == EMPTY
    &&& forall|x: int, y: int| !e.contains(x, y) ==> #[trigger] cell_at(s, x, y) == cell_at(s0, x, y)
}

proof fn lemma_cell_at_update(s: Seq<Cell>, cx: int, cy: int, c: Cell)
    requires
        s.len() == FIELD_W * FIELD_H,
        in_grid(cx, cy),
    ensures
        forall|x: int, y: int| #[trigger]
            cell_at(s.update(cy * FIELD_W + cx, c), x, y) == if x == cx && y == cy {
                c
            } else {
                cell_at(s, x, y)
            },
{
    assert forall|x: int, y: int| #[trigger]
        cell_at(s.update(cy * FIELD_W + cx, c), x, y) == if x == cx && y == cy {
            c
        } else {
            cell_at(s, x, y)
        } by {
        if in_grid(x, y) {
            assert(0 <= y * FIELD_W + x < FIELD_W * FIELD_H);
            assert(0 <= cy * FIELD_W + cx < FIELD_W * FIELD_H);
            if !(x == cx && y == cy) {
                assert(y * FIELD_W + x != cy * FIELD_W + cx);
            }
        }
    }
}

proof fn lemma_box_size_rows(x0: int, x1: int, y0: int, y1: int)
    requires
        x0 <= x1,
        y0 <= y1,
    ensures
        box_size(x0, x1, y0, y1) == (x1 - x0 + 1) + box_size(x0, x1, y0 + 1, y1),
        box_size(x0, x1, y0, y1) == (x1 - x0 + 1) + box_size(x0, x1, y0, y1 - 1),
        box_size(x0, x1, y0, y1) == (y1 - y0 + 1) + box_size(x0, x1 - 1, y0, y1),
        box_size(x0, x1, y0, y1) == (y1 - y0 + 1) + box_size(x0 + 1, x1, y0, y1),
        box_size(x0, x1, y0, y1) >= 1,
{
    let w = x1 - x0 + 1;
    let h = y1 - y0 + 1;
    assert(w * h == w + w * (h - 1)) by (nonlinear_arith);
    assert(w * 0 == 0) by (nonlinear_arith);
    assert(0 * h == 0) by (nonlinear_arith);
    assert(w * h == h + (w - 1) * h) by (nonlinear_arith);
    assert(w * h >= 1) by (nonlinear_arith)
        requires
            w >= 1,
            h >= 1,
    ;
}

/// One spiral step keeps the invariant and shrinks what is left by one
/// cell; with one cell left, the step finishes the effect and leaves the
/// whole rectangle `EMPTY`.
proof fn lemma_spiral_inv_step(
    s0: Seq<Cell>,
    s: Seq<Cell>,
    e: ErasingEffect,
    x0: int,
    x1: int,
    y0: int,
    y1: int,
) -> (nb: (int, int, int, int))
    requires
        spiral_inv(s0, s, e, x0, x1, y0, y1),
    ensures
        cell_at(s, e.cursor.x as int, e.cursor.y as int) == ERASING,
        leg_len(e, x0, x1, y0, y1) >= 1,
        box_size(x0, x1, y0, y1) >= 0,
        ({
            let st = spiral_step(s, e);
            let m = leg_len(e, x0, x1, y0, y1) + box_size(x0, x1, y0, y1);
            &&& m == 1 ==> {
                &&& st.2
                &&& forall|x: int, y: int| e.contains(x, y) ==> #[trigger] cell_at(st.0, x, y) == EMPTY
                &&& forall|x: int, y: int| !e.contains(x, y) ==> #[trigger] cell_at(st.0, x, y) == cell_at(s0, x, y)
            }
            &&& m > 1 ==> {
                &&& !st.2
                &&& spiral_inv(s0, st.0, st.1, nb.0, nb.1, nb.2, nb.3)
                &&& leg_len(st.1, nb.0, nb.1, nb.2, nb.3) + box_size(nb.0, nb.1, nb.2, nb.3) == m - 1
            }
        }),
{
    let cx = e.cursor.x as int;
    let cy = e.cursor.y as int;
    let s1 = s.update(cy * FIELD_W + cx, EMPTY);
    lemma_cell_at_update(s, cx, cy, EMPTY);
    assert(in_leg(e, x0, x1, y0, y1, cx, cy));
    assert(cell_at(s, cx, cy) == ERASING);
    let st = spiral_step(s, e);
    assert(st.0 == s1);
    let nonempty = x0 <= x1 && y0 <= y1;
    if nonempty {
        lemma_box_size_rows(x0, x1, y0, y1);
    }
    let fx = cx + step_x(e.dir);
    let fy = cy + step_y(e.dir);
    if leg_len(e, x0, x1, y0, y1) > 1 {
        assert(in_leg(e, x0, x1, y0, y1, fx, fy));
        assert(e.contains(fx, fy));
        assert(cell_at(s1, fx, fy) == ERASING);
        assert(st.1.cursor.x == fx && st.1.cursor.y == fy && st.1.dir == e.dir);
        assert(!st.2);
        (x0, x1, y0, y1)
    } else {
        assert(!in_leg(e, x0, x1, y0, y1, fx, fy));
        assert(!in_box(x0, x1, y0, y1, fx, fy));
        assert(!(e.contains(fx, fy) && cell_at(s1, fx, fy) == ERASING));
        let nd = turn(e.dir);
        let tx = cx + step_x(nd);
        let ty = cy + step_y(nd);
        assert(st.1.dir == nd);
        if nonempty {
            assert(in_box(x0, x1, y0, y1, tx, ty));
            assert(e.contains(tx, ty));
            assert(cell_at(s1, tx, ty) == ERASING);
            assert(st.1.cursor.x == tx && st.1.cursor.y == ty);
            assert(!st.2);
            match e.dir {
                Direction::Up => (x0, x1, y0 + 1, y1),
                Direction::Right => (x0, x1 - 1, y0, y1),
                Direction::Down => (x0, x1, y0, y1 - 1),
                Direction::Left => (x0 + 1, x1, y0, y1),
            }
        } else {
            assert(box_size(x0, x1, y0, y1) == 0);
            if e.contains(tx, ty) {
                assert(!in_leg(e, x0, x1, y0, y1, tx, ty));
                assert(cell_at(s1, tx, ty) == EMPTY);
            }
            assert(st.2);
            (x0, x1, y0, y1)
        }
    }
}

proof fn lemma_spiral_run_inv(s: Seq<Cell>, e: ErasingEffect, k: nat) -> (p: (int, int, int, int))
    requires
        spiral_start(s, e),
        k < e.spec_area(),
    ensures
        ({
            let st = spiral_run(s, e, k);
            &&& !st.2
            &&& st.3 == 0
            &&& st.1.left == e.left && st.1.right == e.right && st.1.top == e.top && st.1.bottom == e.bottom
            &&& spiral_inv(s, st.0, st.1, p.0, p.1, p.2, p.3)
            &&& leg_len(st.1, p.0, p.1, p.2, p.3) + box_size(p.0, p.1, p.2, p.3) == e.spec_area() - k
        }),
    decreases k,
{
    if k == 0 {
        let p = (e.left + 1, e.right as int, e.top as int, e.bottom as int);
        lemma_box_size_rows(e.left as int, e.right as int, e.top as int, e.bottom as int);
        p
    } else {
        let q = lemma_spiral_run_inv(s, e, (k - 1) as nat);
        let prev = spiral_run(s, e, (k - 1) as nat);
        lemma_spiral_inv_step(s, prev.0, prev.1, q.0, q.1, q.2, q.3)
    }
}

/// A cell that the spiral has cleared stays `EMPTY`.
proof fn lemma_spiral_cleared_stays(s: Seq<Cell>, e: ErasingEffect, j: nat, k: nat)
    requires
        spiral_start(s, e),
        j < k <= e.spec_area(),
    ensures
        cell_at(
            spiral_run(s, e, k).0,
            spiral_run(s, e, j).1.cursor.x as int,
            spiral_run(s, e, j).1.cursor.y as int,
        ) == EMPTY,
    decreases k,
{
    let cj = spiral_run(s, e, j).1.cursor;
    let prev = spiral_run(s, e, (k - 1) as nat);
    let q = lemma_spiral_run_inv(s, e, (k - 1) as nat);
    lemma_cell_at_update(prev.0, prev.1.cursor.x as int, prev.1.cursor.y as int, EMPTY);
    if j < k - 1 {
        lemma_spiral_cleared_stays(s, e, j, (k - 1) as nat);
    }
}

/// Spiral erase of a rectangle of `R` by `C` cells, started at its
/// bottom-left cell going up with every cell `ERASING`: each of the first
/// `R * C` steps starts on a cell of the rectangle that is still `ERASING`
/// and that no earlier step started on, the effect has not finished
/// before, it finishes at step `R * C` having earned exactly `R * C`, and
/// then the whole rectangle is `EMPTY` while no cell outside it changed.
pub proof fn lemma_spiral_erases_each_cell_once(s: Seq<Cell>, e: ErasingEffect)
    requires
        spiral_start(s, e),
    ensures
        forall|k: nat|
            k < e.spec_area() ==> {
                let st = #[trigger] spiral_run(s, e, k);
                &&& !st.2
                &&& e.contains(st.1.cursor.x as int, st.1.cursor.y as int)
                &&& cell_at(st.0, st.1.cursor.x as int, st.1.cursor.y as int) == ERASING
            },
        forall|j: nat, k: nat|
            j < k < e.spec_area() ==> (#[trigger] spiral_run(s, e, j)).1.cursor != (#[trigger] spiral_run(
                s,
                e,
                k,
            )).1.cursor,
        spiral_run(s, e, e.spec_area() as nat).2,
        spiral_run(s, e, e.spec_area() as nat).3 == e.spec_area(),
        forall|x: int, y: int|
            e.contains(x, y) ==> #[trigger] cell_at(spiral_run(s, e, e.spec_area() as nat).0, x, y)
                == EMPTY,
        forall|x: int, y: int|
            !e.contains(x, y) ==> #[trigger] cell_at(spiral_run(s, e, e.spec_area() as nat).0, x, y)
                == cell_at(s, x, y),
{
    let n = e.spec_area();
    lemma_box_size_rows(e.left as int, e.right as int, e.top as int, e.bottom as int);
    assert forall|k: nat| k < e.spec_area() implies {
        let st = #[trigger] spiral_run(s, e, k);
        &&& !st.2
        &&& e.contains(st.1.cursor.x as int, st.1.cursor.y as int)
        &&& cell_at(st.0, st.1.cursor.x as int, st.1.cursor.y as int) == ERASING
    } by {
        let q = lemma_spiral_run_inv(s, e, k);
        let st = spiral_run(s, e, k);
        lemma_spiral_inv_step(s, st.0, st.1, q.0, q.1, q.2, q.3);
    }
    assert forall|j: nat, k: nat| j < k < e.spec_area() implies (#[trigger] spiral_run(s, e, j)).1.cursor
        != (#[trigger] spiral_run(s, e, k)).1.cursor by {
        lemma_spiral_cleared_stays(s, e, j, k);
        let q = lemma_spiral_run_inv(s, e, k);
        let st = spiral_run(s, e, k);
        lemma_spiral_inv_step(s, st.0, st.1, q.0, q.1, q.2, q.3);
    }
    let last = (n - 1) as nat;
    let q = lemma_spiral_run_inv(s, e, last);
    let st = spiral_run(s, e, last);
    lemma_spiral_inv_step(s, st.0, st.1, q.0, q.1, q.2, q.3);
}

} // verus!
