use vstd::prelude::*;

verus! {

/// A grid cell: a shape label, or `EMPTY`.
pub type Cell = char;

pub const EMPTY: Cell = ' ';

pub const FIELD_W: usize = 16;

pub const FIELD_H: usize = 18;

/// Why text could not be read as grid or stage data.
#[derive(Debug, Clone, Copy, PartialEq, Eq, Structural)]
pub enum FieldError {
    /// The text does not hold exactly one line per grid row.
    MalformedStageData,
}

/// A line without its final carriage return, if it has one.
pub open spec fn without_cr(line: Seq<char>) -> Seq<char> {
    if line.len() > 0 && line.last() == '\r' {
        line.drop_last()
    } else {
        line
    }
}

/// The lines finished so far, and the line still open, after reading `s`.
pub open spec fn lines_so_far(s: Seq<char>) -> (Seq<Seq<char>>, Seq<char>)
    decreases s.len(),
{
    if s.len() == 0 {
        (seq![], seq![])
    } else {
        let prev = lines_so_far(s.drop_last());
        if s.last() == '\n' {
            (prev.0.push(without_cr(prev.1)), seq![])
        } else {
            (prev.0, prev.1.push(s.last()))
        }
    }
}

/// The lines of a text: split at each `\n`, a `\r` before it dropped, and
/// no empty line after a final `\n`.
pub open spec fn text_lines(s: Seq<char>) -> Seq<Seq<char>> {
    let st = lines_so_far(s);
    if st.1.len() == 0 {
        st.0
    } else {
        st.0.push(st.1)
    }
}

/// The cell at column `x` of a row given as text: a row that is too short
/// is filled up with `EMPTY`.
pub open spec fn row_cell(line: Seq<char>, x: int) -> Cell {
    if 0 <= x < line.len() {
        line[x]
    } else {
        EMPTY
    }
}

/// Splits a text into its lines, as characters.
pub fn split_lines(text: &str) -> (lines: Vec<Vec<char>>)
    ensures
        lines@.len() == text_lines(text@).len(),
        forall|k: int| 0 <= k < lines@.len() ==> #[trigger] lines@[k]@ == text_lines(text@)[k],
{
    let n = text.unicode_len();
    let mut done: Vec<Vec<char>> = Vec::new();
    let mut cur: Vec<char> = Vec::new();
    let mut i: usize = 0;
    while i < n
        invariant
            n == text@.len(),
            i <= n,
            done@.len() == lines_so_far(text@.take(i as int)).0.len(),
            forall|k: int|
                0 <= k < done@.len() ==> #[trigger] done@[k]@ == lines_so_far(text@.take(i as int)).0[k],
            cur@ == lines_so_far(text@.take(i as int)).1,
        decreases n - i,
    {
        let c = text.get_char(i);
        assert(text@.take(i + 1).drop_last() =~= text@.take(i as int));
        assert(text@.take(i + 1).last() == c);
        if c == '\n' {
            if cur.len() > 0 && cur[cur.len() - 1] == '\r' {
                cur.pop();
            }
            done.push(cur);
            cur = Vec::new();
        } else {
            cur.push(c);
        }
        i = i + 1;
    }
    assert(text@.take(n as int) =~= text@);
    if cur.len() > 0 {
        done.push(cur);
    }
    done
}

/// The cell at `(x, y)` of cells stored row after row; `EMPTY` outside the
/// grid.
pub open spec fn cell_at(s: Seq<Cell>, x: int, y: int) -> Cell {
    if in_grid(x, y) {
        s[y * FIELD_W + x]
    } else {
        EMPTY
    }
}

/// Whether `(i, j)` comes before `(x, y)` when the grid is read row by row.
pub open spec fn before(i: int, j: int, x: int, y: int) -> bool {
    j < y || (j == y && i < x)
}

pub open spec fn in_grid(x: int, y: int) -> bool {
    0 <= x < FIELD_W && 0 <= y < FIELD_H
}

/// One entry of a corner table: a label and a position.
pub type Corner = (Cell, (usize, usize));

/// Where `c` stands in a corner table, if it does.
fn label_index(table: &Vec<Corner>, c: Cell) -> (r: Option<usize>)
    ensures
        r is Some ==> r->0 < table@.len() && table@[r->0 as int].0 == c,
        r is None ==> forall|k: int| 0 <= k < table@.len() ==> (#[trigger] table@[k]).0 != c,
{
    let mut k: usize = 0;
    while k < table.len()
        invariant
            k <= table@.len(),
            forall|i: int| 0 <= i < k ==> (#[trigger] table@[i]).0 != c,
        decreases table@.len() - k,
    {
        if table[k].0 == c {
            return Some(k);
        }
        k = k + 1;
    }
    None
}

/// The box whose top-left corner is entry `i` of the top-left table and
/// whose bottom-right corner is entry `j` of the bottom-right table.
pub open spec fn pair_rect(tl: Seq<Corner>, br: Seq<Corner>, i: int, j: int) -> Rectangle {
    Rectangle { left: tl[i].1.0, top: tl[i].1.1, right: br[j].1.0, bottom: br[j].1.1 }
}

/// A label has one first cell.
proof fn lemma_first_unique(f: Field, c: Cell, x1: int, y1: int, x2: int, y2: int)
    requires
        f.first_of(c, x1, y1),
        f.first_of(c, x2, y2),
    ensures
        x1 == x2 && y1 == y2,
{
    assert(!before(x2, y2, x1, y1));
    assert(!before(x1, y1, x2, y2));
}

/// A label has one far corner.
proof fn lemma_far_unique(f: Field, c: Cell, x1: int, y1: int, x2: int, y2: int)
    requires
        c != EMPTY,
        f.far_corner_of(c, x1, y1),
        f.far_corner_of(c, x2, y2),
    ensures
        x1 == x2 && y1 == y2,
{
    let j1 = choose|j: int| 0 <= j < FIELD_H && #[trigger] f.cell(x1, j) == c;
    let j2 = choose|j: int| 0 <= j < FIELD_H && #[trigger] f.cell(x2, j) == c;
    let i1 = choose|i: int| 0 <= i < FIELD_W && #[trigger] f.cell(i, y1) == c;
    let i2 = choose|i: int| 0 <= i < FIELD_W && #[trigger] f.cell(i, y2) == c;
    assert(in_grid(x1, j1) && in_grid(x2, j2) && in_grid(i1, y1) && in_grid(i2, y2));
    assert(before(x1, j1, 0, FIELD_H as int));
    assert(before(x2, j2, 0, FIELD_H as int));
    assert(before(i1, y1, 0, FIELD_H as int));
    assert(before(i2, y2, 0, FIELD_H as int));
}

/// A box one cell wide or one cell tall is never a rectangle.
pub proof fn lemma_thin_box_rejected(f: Field, left: int, top: int, right: int, bottom: int)
    requires
        right - left + 1 == 1 || bottom - top + 1 == 1,
    ensures
        !f.closed_box(left, top, right, bottom),
{
}

/// Every rectangle that the finder reports has a filled border, and each
/// border cell differs from the cell just outside it in the same column
/// (top and bottom edges) or row (left and right edges); outside the grid
/// that neighbour reads as `EMPTY`.
pub proof fn lemma_found_border_closed(f: Field, r: Rectangle)
    requires
        f.found(r),
    ensures
        forall|x: int|
            r.left <= x <= r.right ==> {
                &&& #[trigger] f.cell(x, r.top as int) != EMPTY
                &&& f.cell(x, r.top - 1) != f.cell(x, r.top as int)
                &&& f.cell(x, r.bottom as int) != EMPTY
                &&& f.cell(x, r.bottom + 1) != f.cell(x, r.bottom as int)
            },
        forall|y: int|
            r.top <= y <= r.bottom ==> {
                &&& #[trigger] f.cell(r.left as int, y) != EMPTY
                &&& f.cell(r.left - 1, y) != f.cell(r.left as int, y)
                &&& f.cell(r.right as int, y) != EMPTY
                &&& f.cell(r.right + 1, y) != f.cell(r.right as int, y)
            },
{
    assert forall|x: int| r.left <= x <= r.right implies {
        &&& #[trigger] f.cell(x, r.top as int) != EMPTY
        &&& f.cell(x, r.top - 1) != f.cell(x, r.top as int)
        &&& f.cell(x, r.bottom as int) != EMPTY
        &&& f.cell(x, r.bottom + 1) != f.cell(x, r.bottom as int)
    } by {
        assert(f.column_closes(x, r.top as int, r.bottom as int));
    }
    assert forall|y: int| r.top <= y <= r.bottom implies {
        &&& #[trigger] f.cell(r.left as int, y) != EMPTY
        &&& f.cell(r.left - 1, y) != f.cell(r.left as int, y)
        &&& f.cell(r.right as int, y) != EMPTY
        &&& f.cell(r.right + 1, y) != f.cell(r.right as int, y)
    } by {
        assert(f.row_closes(y, r.left as int, r.right as int));
    }
}

/// A reported rectangle lies on the grid, so its area is at most the grid's.
pub proof fn lemma_found_in_grid(f: Field, r: Rectangle)
    requires
        f.found(r),
    ensures
        r.left < r.right < FIELD_W,
        r.top < r.bottom < FIELD_H,
        1 <= r.spec_area() <= FIELD_W * FIELD_H,
{
    assert(f.column_closes(r.right as int, r.top as int, r.bottom as int));
    assert(f.row_closes(r.bottom as int, r.left as int, r.right as int));
    let w = r.spec_width();
    let h = r.spec_height();
    assert(1 <= w * h <= 16 * 18) by (nonlinear_arith)
        requires
            1 <= w <= 16,
            1 <= h <= 18,
    ;
}

/// Whether `r` is among `rects`.
fn contains_rect(rects: &Vec<Rectangle>, r: &Rectangle) -> (res: bool)
    ensures
        res == rects@.contains(*r),
{
    let mut k: usize = 0;
    while k < rects.len()
        invariant
            k <= rects@.len(),
            forall|i: int| 0 <= i < k ==> rects@[i] != *r,
        decreases rects@.len() - k,
    {
        if rects[k] == *r {
            return true;
        }
        k = k + 1;
    }
    false
}

/// An axis-aligned box of cells, bounds included.
#[derive(Default, Debug, Clone, Copy, PartialEq, Eq, Structural)]
pub struct Rectangle {
    pub left: usize,
    pub top: usize,
    pub right: usize,
    pub bottom: usize,
}

impl Rectangle {
    pub open spec fn spec_width(&self) -> int {
        self.right - self.left + 1
    }

    pub open spec fn spec_height(&self) -> int {
        self.bottom - self.top + 1
    }

    pub open spec fn spec_area(&self) -> int {
        self.spec_width() * self.spec_height()
    }

    /// Whether the cell `(x, y)` lies within the bounds.
    pub open spec fn contains(&self, x: int, y: int) -> bool {
        self.left <= x <= self.right && self.top <= y <= self.bottom
    }

    pub fn area(&self) -> (a: usize)
        requires
            self.left <= self.right,
            self.top <= self.bottom,
            self.spec_area() <= usize::MAX,
        ensures
            a == self.spec_area(),
    {
        proof {
            assert(self.spec_width() <= self.spec_area()) by (nonlinear_arith)
                requires
                    self.spec_width() >= 1,
                    self.spec_height() >= 1,
                    self.spec_area() == self.spec_width() * self.spec_height(),
            ;
            assert(self.spec_height() <= self.spec_area()) by (nonlinear_arith)
                requires
                    self.spec_width() >= 1,
                    self.spec_height() >= 1,
                    self.spec_area() == self.spec_width() * self.spec_height(),
            ;
        }
        self.width() * self.height()
    }

    pub fn width(&self) -> (w: usize)
        requires
            self.left <= self.right,
            self.spec_width() <= usize::MAX,
        ensures
            w == self.spec_width(),
    {
        self.right - self.left + 1
    }

    pub fn height(&self) -> (h: usize)
        requires
            self.top <= self.bottom,
            self.spec_height() <= usize::MAX,
        ensures
            h == self.spec_height(),
    {
        self.bottom - self.top + 1
    }
}

/// The grid: `FIELD_H` rows of `FIELD_W` cells, stored row after row.
pub struct Field {
    pub cells: Vec<Cell>,
}

impl Field {
    /// The grid keeps its fixed size.
    pub open spec fn wf(&self) -> bool {
        self.cells@.len() == FIELD_W * FIELD_H
    }

    /// The cell at `(x, y)`; `EMPTY` outside the grid.
    pub open spec fn cell(&self, x: int, y: int) -> Cell {
        cell_at(self.cells@, x, y)
    }

    /// A border cell `(x, y)` is filled and differs from its outside
    /// neighbour `(ox, oy)`.
    pub open spec fn edge_ok(&self, x: int, y: int, ox: int, oy: int) -> bool {
        self.cell(x, y) != EMPTY && self.cell(ox, oy) != self.cell(x, y)
    }

    /// Column `x` of the box closes it at the top row `t` and the bottom row `b`.
    pub open spec fn column_closes(&self, x: int, t: int, b: int) -> bool {
        self.edge_ok(x, t, x, t - 1) && self.edge_ok(x, b, x, b + 1)
    }

    /// Row `y` of the box closes it at the left column `l` and the right column `r`.
    pub open spec fn row_closes(&self, y: int, l: int, r: int) -> bool {
        self.edge_ok(l, y, l - 1, y) && self.edge_ok(r, y, r + 1, y)
    }

    /// The box `l..=r` by `t..=b` is at least two cells wide and tall, and its
    /// whole border is filled and differs, cell by cell, from what lies just
    /// outside it.
    pub open spec fn closed_box(&self, l: int, t: int, r: int, b: int) -> bool {
        &&& l < r
        &&& t < b
        &&& forall|x: int| l <= x <= r ==> #[trigger] self.column_closes(x, t, b)
        &&& forall|y: int| t <= y <= b ==> #[trigger] self.row_closes(y, l, r)
    }

    /// Among the cells before `(x, y)` in reading order, `(tx, ty)` is the
    /// first that holds `c`.
    pub open spec fn first_of_upto(&self, c: Cell, tx: int, ty: int, x: int, y: int) -> bool {
        &&& in_grid(tx, ty)
        &&& before(tx, ty, x, y)
        &&& self.cell(tx, ty) == c
        &&& forall|i: int, j: int|
            in_grid(i, j) && before(i, j, x, y) && #[trigger] self.cell(i, j) == c ==> !before(
                i,
                j,
                tx,
                ty,
            )
    }

    /// `(tx, ty)` is the first cell holding `c`, reading row by row.
    pub open spec fn first_of(&self, c: Cell, tx: int, ty: int) -> bool {
        self.first_of_upto(c, tx, ty, 0, FIELD_H as int)
    }

    /// `bx` is a column and `by` a row where `c` occurs, and no cell before
    /// `(x, y)` in reading order holds `c` right of `bx` or below `by`.
    pub open spec fn far_corner_upto(&self, c: Cell, bx: int, by: int, x: int, y: int) -> bool {
        &&& exists|j: int| 0 <= j < FIELD_H && #[trigger] self.cell(bx, j) == c
        &&& exists|i: int| 0 <= i < FIELD_W && #[trigger] self.cell(i, by) == c
        &&& forall|i: int, j: int|
            in_grid(i, j) && before(i, j, x, y) && #[trigger] self.cell(i, j) == c ==> i <= bx && j
                <= by
    }

    /// `bx` is the largest column and `by` the largest row that hold `c`
    /// (not necessarily in the same cell).
    pub open spec fn far_corner_of(&self, c: Cell, bx: int, by: int) -> bool {
        self.far_corner_upto(c, bx, by, 0, FIELD_H as int)
    }

    /// The corner tables describe every label that occurs before `(x, y)`:
    /// one entry per label, in both tables at the same index.
    pub open spec fn corner_tables_upto(
        &self,
        tl: Seq<Corner>,
        br: Seq<Corner>,
        x: int,
        y: int,
    ) -> bool {
        &&& tl.len() == br.len()
        &&& forall|k: int| 0 <= k < tl.len() ==> #[trigger] tl[k].0 == br[k].0
        &&& forall|k: int| 0 <= k < tl.len() ==> (#[trigger] tl[k]).0 != EMPTY
        &&& forall|k1: int, k2: int|
            0 <= k1 < k2 < tl.len() ==> (#[trigger] tl[k1]).0 != (#[trigger] tl[k2]).0
        &&& forall|k: int|
            0 <= k < tl.len() ==> self.first_of_upto(
                (#[trigger] tl[k]).0,
                tl[k].1.0 as int,
                tl[k].1.1 as int,
                x,
                y,
            )
        &&& forall|k: int|
            0 <= k < br.len() ==> self.far_corner_upto(
                (#[trigger] br[k]).0,
                br[k].1.0 as int,
                br[k].1.1 as int,
                x,
                y,
            )
        &&& forall|i: int, j: int|
            in_grid(i, j) && before(i, j, x, y) && #[trigger] self.cell(i, j) != EMPTY ==> exists|
                k: int,
            |
                0 <= k < tl.len() && (#[trigger] tl[k]).0 == self.cell(i, j)
    }

    /// A rectangle that the finder reports: its top-left cell is the first
    /// cell of its label, its right column and bottom row are the largest
    /// column and row of some label, and its border is closed.
    pub open spec fn found(&self, r: Rectangle) -> bool {
        &&& self.cell(r.left as int, r.top as int) != EMPTY
        &&& self.first_of(self.cell(r.left as int, r.top as int), r.left as int, r.top as int)
        &&& exists|c: Cell| c != EMPTY && #[trigger] self.far_corner_of(c, r.right as int, r.bottom as int)
        &&& self.closed_box(r.left as int, r.top as int, r.right as int, r.bottom as int)
    }

    /// The corner tables of the whole grid.
    pub open spec fn corner_tables(&self, tl: Seq<Corner>, br: Seq<Corner>) -> bool {
        self.corner_tables_upto(tl, br, 0, FIELD_H as int)
    }

    pub fn new() -> (f: Field)
        ensures
            f.wf(),
            forall|x: int, y: int| #[trigger] f.cell(x, y) == EMPTY,
    {
        Field { cells: vec![EMPTY; FIELD_W * FIELD_H] }
    }

    /// Reads a grid from text, one line per row; a short line is filled up
    /// with `EMPTY` and a long one is cut at the grid's width.
    pub fn from_text(cells_text: &str) -> (r: Result<Field, FieldError>)
        ensures
            r is Ok <==> text_lines(cells_text@).len() == FIELD_H,
            r is Err ==> r->Err_0 == FieldError::MalformedStageData,
            r is Ok ==> r->Ok_0.wf() && forall|x: int, y: int|
                0 <= x < FIELD_W && 0 <= y < FIELD_H ==> #[trigger] r->Ok_0.cell(x, y) == row_cell(
                    text_lines(cells_text@)[y],
                    x,
                ),
    {
        let lines = split_lines(cells_text);
        if lines.len() != FIELD_H {
            return Err(FieldError::MalformedStageData);
        }
        let mut cells: Vec<Cell> = Vec::new();
        let mut y: usize = 0;
        while y < FIELD_H
            invariant
                lines@.len() == FIELD_H,
                forall|k: int| 0 <= k < lines@.len() ==> #[trigger] lines@[k]@ == text_lines(cells_text@)[k],
                y <= FIELD_H,
                cells@.len() == y * FIELD_W,
                forall|i: int|
                    0 <= i < cells@.len() ==> #[trigger] cells@[i] == row_cell(
                        lines@[i / FIELD_W as int]@,
                        i % FIELD_W as int,
                    ),
            decreases FIELD_H - y,
        {
            let line = &lines[y];
            let mut x: usize = 0;
            while x < FIELD_W
                invariant
                    lines@.len() == FIELD_H,
                    y < FIELD_H,
                    *line == lines@[y as int],
                    x <= FIELD_W,
                    cells@.len() == y * FIELD_W + x,
                    forall|i: int|
                        0 <= i < cells@.len() ==> #[trigger] cells@[i] == row_cell(
                            lines@[i / FIELD_W as int]@,
                            i % FIELD_W as int,
                        ),
                decreases FIELD_W - x,
            {
                let c = if x < line.len() {
                    line[x]
                } else {
                    EMPTY
                };
                proof {
                    let i = y * FIELD_W + x;
                    assert(i / FIELD_W as int == y && i % FIELD_W as int == x) by (nonlinear_arith)
                        requires
                            i == y * FIELD_W + x,
                            x < FIELD_W,
                            FIELD_W == 16,
                    ;
                }
                cells.push(c);
                x = x + 1;
            }
            y = y + 1;
        }
        let f = Field { cells };
        assert forall|x: int, y: int| 0 <= x < FIELD_W && 0 <= y < FIELD_H implies #[trigger] f.cell(x, y)
            == row_cell(text_lines(cells_text@)[y], x) by {
            let i = y * FIELD_W + x;
            assert(i / FIELD_W as int == y && i % FIELD_W as int == x && 0 <= i < FIELD_W * FIELD_H)
                by (nonlinear_arith)
                requires
                    i == y * FIELD_W + x,
                    0 <= x < FIELD_W,
                    0 <= y < FIELD_H,
                    FIELD_W == 16,
                    FIELD_H == 18,
            ;
        }
        Ok(f)
    }

    pub fn get(&self, x: usize, y: usize) -> (c: Cell)
        requires
            self.wf(),
        ensures
            c == self.cell(x as int, y as int),
    {
        if x < FIELD_W && y < FIELD_H {
            self.cells[y * FIELD_W + x]
        } else {
            EMPTY
        }
    }

    /// For each label on the grid, its first cell in reading order (the
    /// top-left table) and its largest column and row (the bottom-right
    /// table); both tables list the labels in the same order.
    pub fn find_corners(&self) -> (r: (Vec<Corner>, Vec<Corner>))
        requires
            self.wf(),
        ensures
            self.corner_tables(r.0@, r.1@),
    {
        let mut top_lefts: Vec<Corner> = Vec::new();
        let mut bottom_rights: Vec<Corner> = Vec::new();
        let mut y: usize = 0;
        while y < FIELD_H
            invariant
                self.wf(),
                y <= FIELD_H,
                self.corner_tables_upto(top_lefts@, bottom_rights@, 0, y as int),
            decreases FIELD_H - y,
        {
            let mut x: usize = 0;
            while x < FIELD_W
                invariant
                    self.wf(),
                    y < FIELD_H,
                    x <= FIELD_W,
                    self.corner_tables_upto(top_lefts@, bottom_rights@, x as int, y as int),
                decreases FIELD_W - x,
            {
                let c = self.get(x, y);
                let ghost tl0 = top_lefts@;
                let ghost br0 = bottom_rights@;
                if c != EMPTY {
                    match label_index(&top_lefts, c) {
                        None => {
                            top_lefts.push((c, (x, y)));
                            bottom_rights.push((c, (x, y)));
                            proof {
                                let tl = top_lefts@;
                                assert(tl[tl.len() - 1] == (c, (x, y)));
                                assert forall|i: int, j: int|
                                    in_grid(i, j) && before(i, j, x + 1, y as int)
                                        && #[trigger] self.cell(i, j) != EMPTY implies exists|k: int|
                                    0 <= k < tl.len() && (#[trigger] tl[k]).0 == self.cell(
                                        i,
                                        j,
                                    ) by {
                                    if before(i, j, x as int, y as int) {
                                        let k0 = choose|k: int|
                                            0 <= k < tl0.len() && (#[trigger] tl0[k]).0 == self.cell(
                                                i,
                                                j,
                                            );
                                        assert(tl[k0] == tl0[k0]);
                                    } else {
                                        assert(tl[tl.len() - 1].0 == self.cell(i, j));
                                    }
                                }
                                assert forall|k: int| 0 <= k < br0.len() implies self.far_corner_upto(
                                    (#[trigger] bottom_rights@[k]).0,
                                    bottom_rights@[k].1.0 as int,
                                    bottom_rights@[k].1.1 as int,
                                    x + 1,
                                    y as int,
                                ) by {
                                    assert(bottom_rights@[k] == br0[k]);
                                    assert(tl0[k].0 != c);
                                }
                                assert(self.cell(x as int, y as int) == c);
                            }
                        },
                        Some(k) => {
                            let (_, (bx, by)) = bottom_rights[k];
                            let nx = if bx < x {
                                x
                            } else {
                                bx
                            };
                            let ny = if by < y {
                                y
                            } else {
                                by
                            };
                            bottom_rights.set(k, (c, (nx, ny)));
                            proof {
                                assert(self.cell(x as int, y as int) == c);
                                assert(tl0[k as int].0 == c);
                                let br = bottom_rights@;
                                assert forall|m: int| 0 <= m < br.len() implies self.far_corner_upto(
                                    (#[trigger] br[m]).0,
                                    br[m].1.0 as int,
                                    br[m].1.1 as int,
                                    x + 1,
                                    y as int,
                                ) by {
                                    if m != k {
                                        assert(br[m] == br0[m]);
                                        assert(tl0[m].0 != c);
                                    } else {
                                        assert(self.far_corner_upto(c, bx as int, by as int, x as int, y as int));
                                        if bx < x {
                                            assert(self.cell(nx as int, y as int) == c);
                                        } else {
                                            let j = choose|j: int| 0 <= j < FIELD_H && #[trigger] self.cell(bx as int, j) == c;
                                            assert(self.cell(nx as int, j) == c);
                                        }
                                        if by < y {
                                            assert(self.cell(x as int, ny as int) == c);
                                        } else {
                                            let i = choose|i: int| 0 <= i < FIELD_W && #[trigger] self.cell(i, by as int) == c;
                                            assert(self.cell(i, ny as int) == c);
                                        }
                                    }
                                }
                            }
                        },
                    }
                } else {
                    proof {
                        let br = bottom_rights@;
                        assert forall|m: int| 0 <= m < br.len() implies self.far_corner_upto(
                            (#[trigger] br[m]).0,
                            br[m].1.0 as int,
                            br[m].1.1 as int,
                            x + 1,
                            y as int,
                        ) by {
                            assert(self.far_corner_upto(br[m].0, br[m].1.0 as int, br[m].1.1 as int, x as int, y as int));
                            assert(top_lefts@[m].0 != EMPTY);
                        }
                    }
                }
                x = x + 1;
            }
            y = y + 1;
        }
        (top_lefts, bottom_rights)
    }

    /// Every rectangle that the finder reports, each once.
    pub fn find_all_rectangles(&self) -> (rects: Vec<Rectangle>)
        requires
            self.wf(),
        ensures
            forall|r: Rectangle| #[trigger] rects@.contains(r) <==> self.found(r),
            rects@.no_duplicates(),
    {
        let (top_lefts, bottom_rights) = self.find_corners();
        let ghost tl = top_lefts@;
        let ghost br = bottom_rights@;
        let mut answers: Vec<Rectangle> = Vec::new();
        let mut a: usize = 0;
        while a < top_lefts.len()
            invariant
                self.wf(),
                tl == top_lefts@,
                br == bottom_rights@,
                self.corner_tables_upto(tl, br, 0, FIELD_H as int),
                a <= tl.len(),
                answers@.no_duplicates(),
                forall|r: Rectangle| #[trigger]
                    answers@.contains(r) <==> exists|i: int, j: int|
                        0 <= i < a && 0 <= j < br.len() && r == pair_rect(tl, br, i, j)
                            && self.closed_box(r.left as int, r.top as int, r.right as int, r.bottom as int),
            decreases tl.len() - a,
        {
            let mut b: usize = 0;
            while b < bottom_rights.len()
                invariant
                    self.wf(),
                    tl == top_lefts@,
                    br == bottom_rights@,
                    a < tl.len(),
                    b <= br.len(),
                    answers@.no_duplicates(),
                    forall|r: Rectangle| #[trigger]
                        answers@.contains(r) <==> exists|i: int, j: int|
                            ((0 <= i < a && 0 <= j < br.len()) || (i == a && 0 <= j < b)) && r == pair_rect(tl, br, i, j)
                                && self.closed_box(r.left as int, r.top as int, r.right as int, r.bottom as int),
                decreases br.len() - b,
            {
                let (_, (left, top)) = top_lefts[a];
                let (_, (right, bottom)) = bottom_rights[b];
                let r = Rectangle { left, top, right, bottom };
                assert(r == pair_rect(tl, br, a as int, b as int));
                let ghost prev = answers@;
                if self.is_rectangle(left, top, right, bottom) && !contains_rect(&answers, &r) {
                    answers.push(r);
                    proof {
                        assert forall|q: Rectangle| #[trigger] answers@.contains(q) <==> (prev.contains(q) || q == r) by {
                            if prev.contains(q) {
                                let k = choose|k: int| 0 <= k < prev.len() && prev[k] == q;
                                assert(answers@[k] == q);
                            }
                            if answers@.contains(q) && q != r {
                                let k = choose|k: int| 0 <= k < answers@.len() && answers@[k] == q;
                                assert(prev[k] == q);
                            }
                            if q == r {
                                assert(answers@[answers@.len() - 1] == q);
                            }
                        }
                    }
                }
                b = b + 1;
            }
            a = a + 1;
        }
        proof {
            assert forall|r: Rectangle| #[trigger] answers@.contains(r) <==> self.found(r) by {
                if self.found(r) {
                    let c0 = self.cell(r.left as int, r.top as int);
                    let i = choose|k: int| 0 <= k < tl.len() && (#[trigger] tl[k]).0 == c0;
                    lemma_first_unique(*self, c0, tl[i].1.0 as int, tl[i].1.1 as int, r.left as int, r.top as int);
                    let c = choose|c: Cell| c != EMPTY && #[trigger] self.far_corner_of(c, r.right as int, r.bottom as int);
                    let y0 = choose|y0: int| 0 <= y0 < FIELD_H && #[trigger] self.cell(r.right as int, y0) == c;
                    assert(in_grid(r.right as int, y0));
                    let j = choose|k: int| 0 <= k < tl.len() && (#[trigger] tl[k]).0 == self.cell(r.right as int, y0);
                    assert(br[j].0 == c);
                    lemma_far_unique(*self, c, br[j].1.0 as int, br[j].1.1 as int, r.right as int, r.bottom as int);
                    assert(r == pair_rect(tl, br, i, j));
                    assert(exists|i: int, j: int|
                        0 <= i < tl.len() && 0 <= j < br.len() && r == pair_rect(tl, br, i, j)
                            && self.closed_box(r.left as int, r.top as int, r.right as int, r.bottom as int));
                }
                if answers@.contains(r) {
                    let (i, j) = choose|i: int, j: int|
                        0 <= i < tl.len() && 0 <= j < br.len() && r == pair_rect(tl, br, i, j)
                            && self.closed_box(r.left as int, r.top as int, r.right as int, r.bottom as int);
                    assert(self.first_of_upto(tl[i].0, tl[i].1.0 as int, tl[i].1.1 as int, 0, FIELD_H as int));
                    assert(tl[i].0 == self.cell(r.left as int, r.top as int));
                    assert(tl[j].0 == br[j].0 && tl[j].0 != EMPTY);
                    assert(self.far_corner_of(br[j].0, r.right as int, r.bottom as int));
                }
            }
        }
        answers
    }

    /// Among the rectangles that the finder reports and that contain
    /// `(x, y)`, one of largest area; `None` when none contains the point.
    pub fn find_rectangle_to_be_erased(&self, x: usize, y: usize) -> (res: Option<Rectangle>)
        requires
            self.wf(),
        ensures
            res is None <==> !exists|q: Rectangle| #[trigger] self.found(q) && q.contains(x as int, y as int),
            res is Some ==> {
                let r = res->0;
                &&& self.found(r)
                &&& r.contains(x as int, y as int)
                &&& forall|q: Rectangle| #[trigger] self.found(q) && q.contains(x as int, y as int)
                    ==> q.spec_area() <= r.spec_area()
            },
    {
        let rectangles = self.find_all_rectangles();
        let mut best: Option<Rectangle> = None;
        let mut k: usize = 0;
        while k < rectangles.len()
            invariant
                self.wf(),
                forall|r: Rectangle| #[trigger] rectangles@.contains(r) <==> self.found(r),
                k <= rectangles@.len(),
                best is None <==> forall|i: int| 0 <= i < k ==> !(#[trigger] rectangles@[i]).contains(x as int, y as int),
                best is Some ==> {
                    let r = best->0;
                    &&& self.found(r)
                    &&& r.contains(x as int, y as int)
                    &&& r.spec_area() <= FIELD_W * FIELD_H
                    &&& forall|i: int| 0 <= i < k && (#[trigger] rectangles@[i]).contains(x as int, y as int)
                        ==> rectangles@[i].spec_area() <= r.spec_area()
                },
            decreases rectangles@.len() - k,
        {
            let r = rectangles[k];
            assert(rectangles@.contains(r));
            proof {
                lemma_found_in_grid(*self, r);
            }
            if r.left <= x && x <= r.right && r.top <= y && y <= r.bottom {
                match best {
                    None => {
                        best = Some(r);
                    },
                    Some(b) => {
                        if r.area() > b.area() {
                            best = Some(r);
                        }
                    },
                }
            }
            k = k + 1;
        }
        proof {
            if best is Some {
                let r = best->0;
                assert forall|q: Rectangle| #[trigger] self.found(q) && q.contains(x as int, y as int)
                    implies q.spec_area() <= r.spec_area() by {
                    assert(rectangles@.contains(q));
                    let i = choose|i: int| 0 <= i < rectangles@.len() && rectangles@[i] == q;
                }
            } else {
                if exists|q: Rectangle| #[trigger] self.found(q) && q.contains(x as int, y as int) {
                    let q = choose|q: Rectangle| #[trigger] self.found(q) && q.contains(x as int, y as int);
                    assert(rectangles@.contains(q));
                    let i = choose|i: int| 0 <= i < rectangles@.len() && rectangles@[i] == q;
                }
            }
        }
        best
    }

    /// Writes `c` into the cell `(x, y)`.
    pub fn set(&mut self, x: usize, y: usize, c: Cell)
        requires
            old(self).wf(),
            in_grid(x as int, y as int),
        ensures
            final(self).wf(),
            final(self).cells@ == old(self).cells@.update(y * FIELD_W + x, c),
            forall|i: int, j: int| #[trigger]
                final(self).cell(i, j) == if i == x && j == y {
                    c
                } else {
                    old(self).cell(i, j)
                },
    {
        self.cells.set(y * FIELD_W + x, c);
    }

    pub fn is_rectangle(&self, left: usize, top: usize, right: usize, bottom: usize) -> (res: bool)
        requires
            self.wf(),
        ensures
            res == self.closed_box(left as int, top as int, right as int, bottom as int),
    {
        if !(left < right && top < bottom) {
            return false;
        }
        let mut x: usize = left;
        while x <= right
            invariant
                self.wf(),
                left < right,
                top < bottom,
                left <= x,
                forall|i: int| left <= i < x ==> #[trigger] self.column_closes(i, top as int, bottom as int),
            decreases right + 1 - x,
        {
            let c = self.get(x, top);
            let d = self.get(x, bottom);
            let closes = c != EMPTY && (top == 0 || self.get(x, top - 1) != c) && d != EMPTY
                && self.get(x, bottom + 1) != d;
            if !closes {
                assert(!self.column_closes(x as int, top as int, bottom as int));
                return false;
            }
            x = x + 1;
        }
        let mut y: usize = top;
        while y <= bottom
            invariant
                self.wf(),
                left < right,
                top < bottom,
                top <= y,
                forall|i: int| left <= i <= right ==> #[trigger] self.column_closes(i, top as int, bottom as int),
                forall|j: int| top <= j < y ==> #[trigger] self.row_closes(j, left as int, right as int),
            decreases bottom + 1 - y,
        {
            let c = self.get(left, y);
            let d = self.get(right, y);
            let closes = c != EMPTY && (left == 0 || self.get(left - 1, y) != c) && d != EMPTY
                && self.get(right + 1, y) != d;
            if !closes {
                assert(!self.row_closes(y as int, left as int, right as int));
                return false;
            }
            y = y + 1;
        }
        true
    }
}

} // verus!
