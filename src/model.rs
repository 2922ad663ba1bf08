use vstd::prelude::*;

use crate::field::{
    cell_at, in_grid, lemma_found_in_grid, row_cell, split_lines, text_lines, Cell, Field, FieldError, Rectangle, EMPTY,
    FIELD_H, FIELD_W,
};

verus! {

pub const FPS: i32 = 30;

pub const MOVE_WAIT: i32 = 3;

pub const SHOOT_WAIT: i32 = 5;

pub const SCROLL_WAIT: i32 = 30;

pub const BULLET_COUNT_MAX: i32 = 4;

pub const BULLET_SPEED: i32 = 30;

pub const CELL_SIZE: i32 = 30;

/// Marks a cell whose rectangle is being erased.
pub const ERASING: Cell = '*';

pub const ERASE_WAIT: i32 = 1;

/// The player's input for one frame.
#[derive(Debug, Clone, Copy, PartialEq, Eq, Structural)]
pub enum Command {
    /// No input; a replay line "None" reads as this.
    Idle,
    Left,
    Right,
    /// Hastens the next scroll.
    Up,
    Shoot,
}

/// The command that a line of a replay names; anything else is `Idle`.
pub open spec fn command_of(s: Seq<char>) -> Command {
    if s == "Left"@ {
        Command::Left
    } else if s == "Right"@ {
        Command::Right
    } else if s == "Up"@ {
        Command::Up
    } else if s == "Shoot"@ {
        Command::Shoot
    } else {
        Command::Idle
    }
}

/// Whether the characters of `line` spell `word`.
fn spells(line: &Vec<char>, word: &str) -> (r: bool)
    ensures
        r == (line@ == word@),
{
    let n = word.unicode_len();
    if line.len() != n {
        return false;
    }
    let mut i: usize = 0;
    while i < n
        invariant
            n == word@.len(),
            line@.len() == n,
            i <= n,
            forall|k: int| 0 <= k < i ==> line@[k] == word@[k],
        decreases n - i,
    {
        if line[i] != word.get_char(i) {
            return false;
        }
        i = i + 1;
    }
    assert(line@ =~= word@);
    true
}

/// The command that the characters of `line` name.
fn command_of_chars(line: &Vec<char>) -> (c: Command)
    ensures
        c == command_of(line@),
{
    if spells(line, "Left") {
        Command::Left
    } else if spells(line, "Right") {
        Command::Right
    } else if spells(line, "Up") {
        Command::Up
    } else if spells(line, "Shoot") {
        Command::Shoot
    } else {
        Command::Idle
    }
}

impl Command {
    pub fn from_str(str: &str) -> (c: Command)
        ensures
            c == command_of(str@),
    {
        let n = str.unicode_len();
        let mut line: Vec<char> = Vec::new();
        let mut i: usize = 0;
        while i < n
            invariant
                n == str@.len(),
                i <= n,
                line@ == str@.take(i as int),
            decreases n - i,
        {
            line.push(str.get_char(i));
            i = i + 1;
            assert(line@ =~= str@.take(i as int));
        }
        assert(str@.take(n as int) =~= str@);
        command_of_chars(&line)
    }
}

/// Reads a replay: one command per line.
pub fn load_commands(content: &str) -> (commands: Vec<Command>)
    ensures
        commands@ == text_lines(content@).map_values(|l: Seq<char>| command_of(l)),
{
    let lines = split_lines(content);
    let mut commands: Vec<Command> = Vec::new();
    let mut k: usize = 0;
    while k < lines.len()
        invariant
            lines@.len() == text_lines(content@).len(),
            forall|j: int| 0 <= j < lines@.len() ==> #[trigger] lines@[j]@ == text_lines(content@)[j],
            k <= lines@.len(),
            commands@ == text_lines(content@).take(k as int).map_values(|l: Seq<char>| command_of(l)),
        decreases lines@.len() - k,
    {
        commands.push(command_of_chars(&lines[k]));
        k = k + 1;
        assert(commands@ =~= text_lines(content@).take(k as int).map_values(|l: Seq<char>| command_of(l)));
    }
    assert(text_lines(content@).take(k as int) =~= text_lines(content@));
    commands
}

#[derive(Default, Debug, Clone, Copy, PartialEq, Eq, Structural)]
pub struct Point {
    pub x: usize,
    pub y: usize,
}

impl Point {
    pub fn new(x: usize, y: usize) -> (p: Point)
        ensures
            p.x == x && p.y == y,
    {
        Point { x, y }
    }
}

#[derive(Debug, Clone, Copy, PartialEq, Eq, Structural)]
pub enum Direction {
    Left,
    Right,
    Up,
    Down,
}

/// The sweep direction after a turn: right, down, left, up, and round.
pub open spec fn turn(d: Direction) -> Direction {
    match d {
        Direction::Right => Direction::Down,
        Direction::Down => Direction::Left,
        Direction::Left => Direction::Up,
        Direction::Up => Direction::Right,
    }
}

/// The column step of a direction.
pub open spec fn step_x(d: Direction) -> int {
    match d {
        Direction::Right => 1,
        Direction::Left => -1,
        _ => 0,
    }
}

/// The row step of a direction; rows grow downward.
pub open spec fn step_y(d: Direction) -> int {
    match d {
        Direction::Down => 1,
        Direction::Up => -1,
        _ => 0,
    }
}

impl Direction {
    pub fn turned(&self) -> (d: Direction)
        ensures
            d == turn(*self),
    {
        match self {
            Direction::Right => Direction::Down,
            Direction::Down => Direction::Left,
            Direction::Left => Direction::Up,
            Direction::Up => Direction::Right,
        }
    }
}

/// A projectile: its cell, and an upward pixel offset that only smooths
/// drawing.
#[derive(Debug, Clone, Copy, PartialEq, Eq, Structural)]
pub struct Bullet {
    pub pos: Point,
    pub offset_y: i32,
    pub exist: bool,
}

impl Bullet {
    /// A bullet leaving the player in column `x`, one row above the player.
    pub fn new(x: usize) -> (b: Bullet)
        ensures
            b.pos == (Point { x, y: (FIELD_H - 2) as usize }),
            b.offset_y == 0,
            b.exist,
    {
        Bullet { pos: Point::new(x, FIELD_H - 2), offset_y: 0, exist: true }
    }

    pub open spec fn wf(&self) -> bool {
        &&& in_grid(self.pos.x as int, self.pos.y as int)
        &&& -2 * CELL_SIZE < self.offset_y <= 0
        &&& self.exist ==> -CELL_SIZE < self.offset_y
    }
}

/// The spiral removal of one rectangle.
#[derive(Debug, Clone, Copy, PartialEq, Eq, Structural)]
pub struct ErasingEffect {
    pub exist: bool,
    pub cursor: Point,
    pub erase_wait: i32,
    pub dir: Direction,
    pub left: usize,
    pub top: usize,
    pub right: usize,
    pub bottom: usize,
}

impl ErasingEffect {
    pub open spec fn contains(&self, x: int, y: int) -> bool {
        self.left <= x <= self.right && self.top <= y <= self.bottom
    }

    pub open spec fn spec_area(&self) -> int {
        (self.right - self.left + 1) * (self.bottom - self.top + 1)
    }

    /// The rectangle lies on the grid and the cursor inside it.
    pub open spec fn wf(&self) -> bool {
        &&& self.left <= self.right < FIELD_W
        &&& self.top <= self.bottom < FIELD_H
        &&& self.contains(self.cursor.x as int, self.cursor.y as int)
        &&& self.erase_wait >= 0
    }
}

/// Whether `(x, y)` lies in the effect's rectangle and is still `ERASING`
/// in the cells `s`.
pub open spec fn still_erasing(s: Seq<Cell>, e: ErasingEffect, x: int, y: int) -> bool {
    e.contains(x, y) && cell_at(s, x, y) == ERASING
}

/// One step of the spiral erase over the cells `s`, stored row after row:
/// the cells afterwards, the effect afterwards, and whether it finished.
/// The cursor's cell is cleared; the cursor goes on in its direction while
/// the next cell is still `ERASING` in the rectangle, and otherwise turns
/// clockwise and steps once (staying put where that would leave the
/// rectangle). The effect finishes when the cursor lands on an `EMPTY` cell.
pub open spec fn spiral_step(s: Seq<Cell>, e: ErasingEffect) -> (Seq<Cell>, ErasingEffect, bool) {
    let cx = e.cursor.x as int;
    let cy = e.cursor.y as int;
    let s1 = s.update(cy * FIELD_W + cx, EMPTY);
    let nd = if still_erasing(s1, e, cx + step_x(e.dir), cy + step_y(e.dir)) {
        e.dir
    } else {
        turn(e.dir)
    };
    let tx = cx + step_x(nd);
    let ty = cy + step_y(nd);
    let nx = if e.contains(tx, ty) { tx } else { cx };
    let ny = if e.contains(tx, ty) { ty } else { cy };
    let done = cell_at(s1, nx, ny) == EMPTY;
    (
        s1,
        ErasingEffect {
            cursor: Point { x: nx as usize, y: ny as usize },
            dir: nd,
            exist: !done,
            erase_wait: ERASE_WAIT,
            ..e
        },
        done,
    )
}

/// One frame of the erase effect `e` over the cells `s`: the cells and the
/// effect afterwards, the score it earns, and whether it asks for an erase
/// sound. An effect that has ended stays as it is; one that waits counts
/// down; otherwise it takes a spiral step, and earns its rectangle's area
/// if that step finishes it.
pub open spec fn effect_frame(s: Seq<Cell>, e: ErasingEffect) -> (Seq<Cell>, ErasingEffect, int, bool) {
    if !e.exist {
        (s, e, 0, false)
    } else if e.erase_wait > 0 {
        (s, ErasingEffect { erase_wait: (e.erase_wait - 1) as i32, ..e }, 0, false)
    } else {
        let st = spiral_step(s, e);
        (st.0, st.1, if st.2 { e.spec_area() } else { 0 }, true)
    }
}

/// One frame of every effect in turn, each on the cells that the ones
/// before it left: the cells, the effects, the score earned, and the
/// number of erase sounds asked for.
pub open spec fn effects_frame(s: Seq<Cell>, es: Seq<ErasingEffect>) -> (
    Seq<Cell>,
    Seq<ErasingEffect>,
    int,
    nat,
)
    decreases es.len(),
{
    if es.len() == 0 {
        (s, es, 0, 0)
    } else {
        let p = effects_frame(s, es.drop_last());
        let r = effect_frame(p.0, es.last());
        (r.0, p.1.push(r.1), p.2 + r.2, p.3 + if r.3 { 1nat } else { 0nat })
    }
}

/// The cell next to `(x, y)` in direction `d`, if it lies in the effect's
/// rectangle.
fn neighbour(e: &ErasingEffect, x: usize, y: usize, d: Direction) -> (r: Option<Point>)
    requires
        e.wf(),
        e.contains(x as int, y as int),
    ensures
        r is Some <==> e.contains(x + step_x(d), y + step_y(d)),
        r is Some ==> r->0.x == x + step_x(d) && r->0.y == y + step_y(d),
{
    match d {
        Direction::Right => if x < e.right {
            Some(Point::new(x + 1, y))
        } else {
            None
        },
        Direction::Left => if x > e.left {
            Some(Point::new(x - 1, y))
        } else {
            None
        },
        Direction::Down => if y < e.bottom {
            Some(Point::new(x, y + 1))
        } else {
            None
        },
        Direction::Up => if y > e.top {
            Some(Point::new(x, y - 1))
        } else {
            None
        },
    }
}

/// Performs one step of the spiral erase on the field.
fn advance_effect(field: &mut Field, e: ErasingEffect) -> (r: (ErasingEffect, bool))
    requires
        old(field).wf(),
        e.wf(),
    ensures
        final(field).wf(),
        r.0.wf(),
        (final(field).cells@, r.0, r.1) == spiral_step(old(field).cells@, e),
{
    let cx = e.cursor.x;
    let cy = e.cursor.y;
    field.set(cx, cy, EMPTY);
    let nd = match neighbour(&e, cx, cy, e.dir) {
        Some(p) => if field.get(p.x, p.y) == ERASING {
            e.dir
        } else {
            e.dir.turned()
        },
        None => e.dir.turned(),
    };
    let (nx, ny) = match neighbour(&e, cx, cy, nd) {
        Some(p) => (p.x, p.y),
        None => (cx, cy),
    };
    let done = field.get(nx, ny) == EMPTY;
    (
        ErasingEffect {
            cursor: Point::new(nx, ny),
            dir: nd,
            exist: !done,
            erase_wait: ERASE_WAIT,
            ..e
        },
        done,
    )
}

/// A sound that the engine asks the player's machine to play.
#[derive(Debug, Clone, Copy, PartialEq, Eq, Structural)]
pub enum Sound {
    Shoot,
    Hit,
    Erase,
    Crash,
}

/// A stage line as a grid row: cut at the grid's width, filled up with
/// `EMPTY`.
pub open spec fn stage_row(line: Seq<char>) -> Seq<Cell> {
    Seq::new(FIELD_W as nat, |x: int| row_cell(line, x))
}

/// The cell where a shot from column `x` would land, scanning rows from
/// `y` upward to the top: the first cell that holds a label (not `EMPTY`,
/// not `ERASING`) decides; the shot lands just below it if that cell is
/// `EMPTY`, and there is no sight otherwise.
pub open spec fn sight_from(f: Field, x: int, y: int) -> Option<Point>
    decreases y + 1,
{
    if y < 0 {
        None
    } else if f.cell(x, y) != EMPTY && f.cell(x, y) != ERASING {
        if f.cell(x, y + 1) == EMPTY {
            Some(Point { x: x as usize, y: (y + 1) as usize })
        } else {
            None
        }
    } else {
        sight_from(f, x, y - 1)
    }
}

/// How many of the first `n` cells of the bottom row are filled.
pub open spec fn bottom_filled(f: Field, n: int) -> nat
    decreases n,
{
    if n <= 0 {
        0
    } else {
        bottom_filled(f, n - 1) + if f.cell(n - 1, FIELD_H - 1) != EMPTY {
            1nat
        } else {
            0nat
        }
    }
}

/// Whether the field holds nothing but `EMPTY`.
pub open spec fn field_empty(f: Field) -> bool {
    forall|x: int, y: int| in_grid(x, y) ==> #[trigger] f.cell(x, y) == EMPTY
}

/// The cell `(x, y)` after a scroll that brings in `row`: every row moves
/// one down and `row` becomes the top row, but an `ERASING` cell stays as
/// it is, and no `ERASING` cell moves.
pub open spec fn scrolled_cell(f: Field, row: Seq<Cell>, x: int, y: int) -> Cell {
    if f.cell(x, y) == ERASING {
        ERASING
    } else if y == 0 {
        row[x]
    } else if f.cell(x, y - 1) == ERASING {
        f.cell(x, y)
    } else {
        f.cell(x, y - 1)
    }
}

/// The cell just above the bullet is filled.
pub open spec fn collides(f: Field, b: Bullet) -> bool {
    b.pos.y >= 1 && f.cell(b.pos.x as int, b.pos.y - 1) != EMPTY
}

/// One frame of a bullet's flight over `f`: the bullet afterwards, and
/// whether it fixes into the grid where it stands. A bullet under a filled
/// cell fixes at once; otherwise it rises by its speed, and on reaching a
/// whole cell moves up one row (or, at the top row, is gone) and fixes if
/// the new cell above is filled.
pub open spec fn bullet_step(f: Field, b: Bullet) -> (Bullet, bool) {
    if collides(f, b) {
        (b, true)
    } else if b.offset_y - BULLET_SPEED > -CELL_SIZE {
        (Bullet { offset_y: (b.offset_y - BULLET_SPEED) as i32, ..b }, false)
    } else if b.pos.y == 0 {
        (Bullet { offset_y: (b.offset_y - BULLET_SPEED) as i32, exist: false, ..b }, false)
    } else {
        let nb = Bullet { pos: Point { x: b.pos.x, y: (b.pos.y - 1) as usize }, offset_y: 0, ..b };
        (nb, collides(f, nb))
    }
}

/// A rectangle that the finder reports, that contains `(x, y)`, and that no
/// other such rectangle exceeds in area.
pub open spec fn largest_containing(f: Field, r: Rectangle, x: int, y: int) -> bool {
    &&& f.found(r)
    &&& r.contains(x, y)
    &&& forall|q: Rectangle| #[trigger] f.found(q) && q.contains(x, y) ==> q.spec_area() <= r.spec_area()
}

/// The effect that starts erasing `r`: at its bottom-left cell, going up.
pub open spec fn effect_for(r: Rectangle) -> ErasingEffect {
    ErasingEffect {
        exist: true,
        cursor: Point { x: r.left, y: r.bottom },
        erase_wait: ERASE_WAIT,
        dir: Direction::Up,
        left: r.left,
        top: r.top,
        right: r.right,
        bottom: r.bottom,
    }
}

/// A bullet after `n` frames over a field that stays as it is, and whether
/// it has fixed; it stops changing once it fixed or left the grid.
pub open spec fn flight(f: Field, b: Bullet, n: nat) -> (Bullet, bool)
    decreases n,
{
    if n == 0 {
        (b, false)
    } else {
        let p = flight(f, b, (n - 1) as nat);
        if p.1 || !p.0.exist {
            p
        } else {
            bullet_step(f, p.0)
        }
    }
}

proof fn lemma_flight_climbs(f: Field, b: Bullet, n: nat, k: nat)
    requires
        b.exist,
        b.offset_y == 0,
        n < b.pos.y,
        k < n,
        forall|i: int| 1 <= i <= n ==> #[trigger] f.cell(b.pos.x as int, b.pos.y - i) == EMPTY,
    ensures
        flight(f, b, k) == (Bullet { pos: Point { x: b.pos.x, y: (b.pos.y - k) as usize }, ..b }, false),
    decreases k,
{
    if k > 0 {
        lemma_flight_climbs(f, b, n, (k - 1) as nat);
        let p = flight(f, b, (k - 1) as nat);
        assert(f.cell(b.pos.x as int, b.pos.y - k) == EMPTY);
        assert(f.cell(b.pos.x as int, b.pos.y - (k + 1)) == EMPTY);
        assert(!collides(f, p.0));
        let nb = Bullet { pos: Point { x: b.pos.x, y: (p.0.pos.y - 1) as usize }, offset_y: 0, ..p.0 };
        assert(!collides(f, nb));
        assert(bullet_step(f, p.0) == (nb, false));
        assert(nb == Bullet { pos: Point { x: b.pos.x, y: (b.pos.y - k) as usize }, ..b });
    }
}

/// A bullet that starts at rest below `n` empty cells, under a filled
/// one, climbs one row a frame and fixes after `n` frames (after one when
/// `n` is 0) in the last empty cell, where it takes the label of the cell
/// above it: the filled cell it ran into.
pub proof fn lemma_bullet_fixes_below_label(f: Field, b: Bullet, n: nat)
    requires
        b.exist,
        b.offset_y == 0,
        n < b.pos.y,
        forall|i: int| 1 <= i <= n ==> #[trigger] f.cell(b.pos.x as int, b.pos.y - i) == EMPTY,
        f.cell(b.pos.x as int, b.pos.y - n - 1) != EMPTY,
    ensures
        forall|k: nat| k < n ==> !(#[trigger] flight(f, b, k)).1 && flight(f, b, k).0.exist,
        ({
            let done = flight(f, b, if n == 0 { 1 } else { n });
            &&& done.1
            &&& done.0.pos == Point { x: b.pos.x, y: (b.pos.y - n) as usize }
            &&& f.cell(done.0.pos.x as int, done.0.pos.y - 1) == f.cell(b.pos.x as int, b.pos.y - n - 1)
        }),
{
    assert forall|k: nat| k < n implies !(#[trigger] flight(f, b, k)).1 && flight(f, b, k).0.exist by {
        lemma_flight_climbs(f, b, n, k);
    }
    if n > 0 {
        lemma_flight_climbs(f, b, n, (n - 1) as nat);
        let p = flight(f, b, (n - 1) as nat);
        assert(f.cell(b.pos.x as int, b.pos.y - n) == EMPTY);
        assert(!collides(f, p.0));
        let nb = Bullet { pos: Point { x: b.pos.x, y: (p.0.pos.y - 1) as usize }, offset_y: 0, ..p.0 };
        assert(collides(f, nb));
        assert(bullet_step(f, p.0) == (nb, true));
    } else {
        assert(collides(f, b));
        assert(flight(f, b, 0) == (b, false));
        assert(flight(f, b, 1) == bullet_step(f, b));
    }
}

/// Scrolling leaves every `ERASING` cell as it is.
pub proof fn lemma_scroll_keeps_erasing(f: Field, row: Seq<Cell>, x: int, y: int)
    requires
        f.cell(x, y) == ERASING,
    ensures
        scrolled_cell(f, row, x, y) == f.cell(x, y),
{
}

/// How many of `hits` are true.
pub open spec fn count_true(hits: Seq<bool>) -> nat
    decreases hits.len(),
{
    if hits.len() == 0 {
        0
    } else {
        count_true(hits.drop_last()) + if hits.last() {
            1nat
        } else {
            0nat
        }
    }
}

/// One frame of bullet `b` in a game whose field and effects are `f0` and
/// `e0`, leaving `f1`, `e1` and the bullet `b1`; `hit` tells whether a hit
/// sound is asked for. A bullet that no longer exists stays as it is; one
/// that does takes a step, and if that fixes it, it stops existing, its
/// cell takes the label above it, and a rectangle around it may start
/// being erased.
pub open spec fn bullet_frame(
    f0: Field,
    e0: Seq<ErasingEffect>,
    b: Bullet,
    f1: Field,
    e1: Seq<ErasingEffect>,
    b1: Bullet,
    hit: bool,
) -> bool {
    let st = bullet_step(f0, b);
    if !b.exist || !st.1 {
        &&& f1 == f0
        &&& e1 == e0
        &&& b1 == if b.exist { st.0 } else { b }
        &&& !hit
    } else {
        let p = st.0.pos;
        &&& b1 == Bullet { exist: false, ..st.0 }
        &&& hit
        &&& exists|mid: Field| {
            &&& #[trigger] mid.cells@ == f0.cells@.update(p.y * FIELD_W + p.x, f0.cell(p.x as int, p.y - 1))
            &&& erases_at(mid, f1, e0, e1, p.x as int, p.y as int)
        }
    }
}

/// What erasing at `(x, y)` does to the field `f0` and the effects `e0`:
/// with no reported rectangle around the point nothing changes; otherwise
/// the cells of the largest one become `ERASING` and an effect for it is
/// added.
pub open spec fn erases_at(
    f0: Field,
    f1: Field,
    e0: Seq<ErasingEffect>,
    e1: Seq<ErasingEffect>,
    x: int,
    y: int,
) -> bool {
    if exists|r: Rectangle| #[trigger] largest_containing(f0, r, x, y) {
        exists|r: Rectangle| {
            &&& #[trigger] largest_containing(f0, r, x, y)
            &&& forall|i: int, j: int| #[trigger] f1.cell(i, j) == if r.contains(i, j) {
                ERASING
            } else {
                f0.cell(i, j)
            }
            &&& e1 == e0.push(effect_for(r))
        }
    } else {
        f1 == f0 && e1 == e0
    }
}

/// Advances a bullet by one frame.
fn advance_bullet(f: &Field, b: Bullet) -> (r: (Bullet, bool))
    requires
        f.wf(),
        b.wf(),
        b.exist,
    ensures
        r == bullet_step(*f, b),
        r.0.wf(),
        r.1 ==> r.0.pos.y >= 1,
{
    if b.pos.y >= 1 && f.get(b.pos.x, b.pos.y - 1) != EMPTY {
        return (b, true);
    }
    let offset_y = b.offset_y - BULLET_SPEED;
    if offset_y > -CELL_SIZE {
        (Bullet { offset_y, ..b }, false)
    } else if b.pos.y == 0 {
        (Bullet { offset_y, exist: false, ..b }, false)
    } else {
        let nb = Bullet { pos: Point::new(b.pos.x, b.pos.y - 1), offset_y: 0, ..b };
        let fix = nb.pos.y >= 1 && f.get(nb.pos.x, nb.pos.y - 1) != EMPTY;
        (nb, fix)
    }
}

/// `b` is `a` with sounds appended, none of them a crash.
pub open spec fn appends_quietly(a: Seq<Sound>, b: Seq<Sound>) -> bool {
    &&& a.len() <= b.len()
    &&& b.subrange(0, a.len() as int) == a
    &&& forall|i: int| a.len() <= i < b.len() ==> b[i] != Sound::Crash
}

proof fn lemma_appends_quietly_trans(a: Seq<Sound>, b: Seq<Sound>, c: Seq<Sound>)
    requires
        appends_quietly(a, b),
        appends_quietly(b, c),
    ensures
        appends_quietly(a, c),
{
    assert forall|i: int| 0 <= i < a.len() implies c.subrange(0, a.len() as int)[i] == a[i] by {
        assert(c[i] == c.subrange(0, b.len() as int)[i]);
        assert(b[i] == b.subrange(0, a.len() as int)[i]);
    }
    assert(c.subrange(0, a.len() as int) =~= a);
    assert forall|i: int| a.len() <= i < c.len() implies c[i] != Sound::Crash by {
        if i < b.len() {
            assert(c[i] == c.subrange(0, b.len() as int)[i]);
        }
    }
}

proof fn lemma_appends_quietly_push(a: Seq<Sound>, b: Seq<Sound>, x: Sound)
    requires
        appends_quietly(a, b),
        x != Sound::Crash,
    ensures
        appends_quietly(a, b.push(x)),
{
    assert forall|i: int| 0 <= i < a.len() implies b.push(x).subrange(0, a.len() as int)[i] == a[i] by {
        assert(b[i] == b.subrange(0, a.len() as int)[i]);
    }
    assert(b.push(x).subrange(0, a.len() as int) =~= a);
}

proof fn lemma_appends_quietly_refl(a: Seq<Sound>)
    ensures
        appends_quietly(a, a),
{
    assert(a.subrange(0, a.len() as int) =~= a);
}

/// The bullets that still exist, in order.
pub open spec fn live_bullets(s: Seq<Bullet>) -> Seq<Bullet>
    decreases s.len(),
{
    if s.len() == 0 {
        s
    } else if s.last().exist {
        live_bullets(s.drop_last()).push(s.last())
    } else {
        live_bullets(s.drop_last())
    }
}

/// The erase effects that still exist, in order.
pub open spec fn live_effects(s: Seq<ErasingEffect>) -> Seq<ErasingEffect>
    decreases s.len(),
{
    if s.len() == 0 {
        s
    } else if s.last().exist {
        live_effects(s.drop_last()).push(s.last())
    } else {
        live_effects(s.drop_last())
    }
}

proof fn lemma_live_bullets_len(s: Seq<Bullet>)
    ensures
        live_bullets(s).len() <= s.len(),
        forall|i: int| 0 <= i < live_bullets(s).len() ==> exists|j: int| 0 <= j < s.len() && #[trigger] live_bullets(s)[i] == s[j],
        forall|i: int| 0 <= i < live_bullets(s).len() ==> (#[trigger] live_bullets(s)[i]).exist,
    decreases s.len(),
{
    if s.len() > 0 {
        lemma_live_bullets_len(s.drop_last());
        let t = live_bullets(s.drop_last());
        assert forall|i: int| 0 <= i < live_bullets(s).len() implies exists|j: int| 0 <= j < s.len() && #[trigger] live_bullets(s)[i] == s[j] by {
            if i < t.len() {
                let j = choose|j: int| 0 <= j < s.drop_last().len() && #[trigger] t[i] == s.drop_last()[j];
                assert(live_bullets(s)[i] == s[j]);
            } else {
                assert(live_bullets(s)[i] == s[s.len() - 1]);
            }
        }
    }
}

proof fn lemma_live_effects_len(s: Seq<ErasingEffect>)
    ensures
        live_effects(s).len() <= s.len(),
        forall|i: int| 0 <= i < live_effects(s).len() ==> exists|j: int| 0 <= j < s.len() && #[trigger] live_effects(s)[i] == s[j],
        forall|i: int| 0 <= i < live_effects(s).len() ==> (#[trigger] live_effects(s)[i]).exist,
    decreases s.len(),
{
    if s.len() > 0 {
        lemma_live_effects_len(s.drop_last());
        let t = live_effects(s.drop_last());
        assert forall|i: int| 0 <= i < live_effects(s).len() implies exists|j: int| 0 <= j < s.len() && #[trigger] live_effects(s)[i] == s[j] by {
            if i < t.len() {
                let j = choose|j: int| 0 <= j < s.drop_last().len() && #[trigger] t[i] == s.drop_last()[j];
                assert(live_effects(s)[i] == s[j]);
            } else {
                assert(live_effects(s)[i] == s[s.len() - 1]);
            }
        }
    }
}

/// The player after one tick of the move animation.
pub open spec fn moved(g: Game) -> Game {
    if g.move_wait > 0 {
        let w = (g.move_wait - 1) as i32;
        Game {
            move_wait: w,
            player_x: if w == 0 && g.move_dir == Direction::Left {
                (g.player_x - 1) as usize
            } else if w == 0 && g.move_dir == Direction::Right {
                (g.player_x + 1) as usize
            } else {
                g.player_x
            },
            ..g
        }
    } else {
        g
    }
}

/// The player after `command` asks to start a move.
pub open spec fn started(g: Game, command: Command) -> Game {
    let d = if command == Command::Left {
        Direction::Left
    } else {
        Direction::Right
    };
    if g.move_wait == 0 && (command == Command::Left || command == Command::Right) && g.move_fits(d) {
        Game { move_dir: d, move_wait: MOVE_WAIT, ..g }
    } else {
        g
    }
}

/// The whole state of a game.
pub struct Game {
    pub is_over: bool,
    pub is_clear: bool,
    pub is_debug: bool,
    /// Sounds asked for since the renderer last took them.
    pub requested_sounds: Vec<Sound>,
    pub frame: i32,
    pub field: Field,
    /// The stage's rows, each `FIELD_W` cells; fed from the last one upward.
    pub stage: Vec<Vec<Cell>>,
    /// The stage row that the next scroll brings in.
    pub next_row: usize,
    pub player_x: usize,
    pub move_dir: Direction,
    pub move_wait: i32,
    pub shoot_wait: i32,
    pub scroll_wait: i32,
    pub bullets: Vec<Bullet>,
    pub erasing_effects: Vec<ErasingEffect>,
    pub score: i32,
    /// A recorded replay; when it is not empty it replaces the live input.
    pub commands: Vec<Command>,
}

impl Game {
    /// A move in direction `d` keeps the player on the grid.
    pub open spec fn move_fits(&self, d: Direction) -> bool {
        &&& d == Direction::Left ==> self.player_x >= 1
        &&& d == Direction::Right ==> self.player_x + 1 < FIELD_W
    }

    pub open spec fn wf(&self) -> bool {
        &&& self.field.wf()
        &&& self.player_x < FIELD_W
        &&& self.move_wait > 0 ==> self.move_fits(self.move_dir)
        &&& forall|i: int| 0 <= i < self.bullets@.len() ==> (#[trigger] self.bullets@[i]).wf()
        &&& forall|i: int|
            0 <= i < self.erasing_effects@.len() ==> (#[trigger] self.erasing_effects@[i]).wf()
        &&& forall|i: int| 0 <= i < self.stage@.len() ==> (#[trigger] self.stage@[i])@.len() == FIELD_W
        &&& self.next_row < self.stage@.len() || (self.stage@.len() == 0 && self.next_row == 0)
        &&& self.frame >= -1
        &&& self.score >= 0
    }

    /// The command that frame `frame + 1` runs: the replay's, when there is
    /// one (`Idle` past its end), else the live one.
    pub open spec fn effective_command(&self, command: Command) -> Command {
        if self.commands@.len() == 0 {
            command
        } else if self.frame + 1 < self.commands@.len() {
            self.commands@[self.frame + 1]
        } else {
            Command::Idle
        }
    }

    /// The scroll countdown once the command has hastened it (down to 5) and
    /// an empty field has forced it to 1, before this frame's tick.
    pub open spec fn scroll_wait_due(&self, command: Command) -> int {
        if field_empty(self.field) {
            1
        } else if command == Command::Up && self.scroll_wait > 5 {
            5
        } else {
            self.scroll_wait as int
        }
    }

    /// The scroll countdown at the end of a frame that runs `command`.
    pub open spec fn scroll_wait_after(&self, command: Command) -> int {
        let w = self.scroll_wait_due(command);
        if w == 1 {
            SCROLL_WAIT as int
        } else if w > 0 {
            w - 1
        } else {
            w
        }
    }

    /// The shoot cooldown after this frame's tick.
    pub open spec fn shoot_wait_ticked(&self) -> int {
        if self.shoot_wait > 0 {
            self.shoot_wait - 1
        } else {
            self.shoot_wait as int
        }
    }

    /// A frame that runs `command` fires a bullet.
    pub open spec fn fires(&self, command: Command) -> bool {
        command == Command::Shoot && self.shoot_wait_ticked() <= 0 && self.bullets@.len()
            < BULLET_COUNT_MAX
    }

    /// The counters leave room for one more frame: the frame number, and the
    /// score even if every effect and bullet finished a whole grid.
    pub open spec fn has_room(&self) -> bool {
        &&& self.frame < i32::MAX
        &&& self.score + FIELD_W * FIELD_H * (self.erasing_effects@.len() + self.bullets@.len())
            <= i32::MAX
    }

    pub fn new() -> (g: Game)
        ensures
            g.wf(),
            !g.is_over && !g.is_clear && !g.is_debug,
            g.requested_sounds@.len() == 0,
            g.frame == -1,
            field_empty(g.field),
            g.stage@.len() == 0 && g.next_row == 0,
            g.player_x == FIELD_W / 2,
            g.move_dir == Direction::Left,
            g.move_wait == 0 && g.shoot_wait == 0 && g.scroll_wait == SCROLL_WAIT,
            g.bullets@.len() == 0 && g.erasing_effects@.len() == 0,
            g.score == 0,
            g.commands@.len() == 0,
    {
        Game {
            is_over: false,
            is_clear: false,
            is_debug: false,
            requested_sounds: Vec::new(),
            frame: -1,
            field: Field::new(),
            stage: Vec::new(),
            next_row: 0,
            player_x: FIELD_W / 2,
            move_dir: Direction::Left,
            move_wait: 0,
            shoot_wait: 0,
            scroll_wait: SCROLL_WAIT,
            bullets: Vec::new(),
            erasing_effects: Vec::new(),
            score: 0,
            commands: Vec::new(),
        }
    }

    /// Takes a recorded replay; from then on it decides each frame's command.
    pub fn load_replay(&mut self, commands: Vec<Command>)
        ensures
            final(self).commands == commands,
            *final(self) == (Game { commands, ..*old(self) }),
    {
        self.commands = commands;
    }

    pub fn toggle_debug(&mut self)
        ensures
            *final(self) == (Game { is_debug: !old(self).is_debug, ..*old(self) }),
    {
        self.is_debug = !self.is_debug;
    }

    /// Appends the lines of a stage text, each cut or filled up to the
    /// grid's width, and points the stage cursor at the last row. A text
    /// that leaves the stage without rows is refused.
    pub fn load_stage(&mut self, content: &str) -> (r: Result<(), FieldError>)
        requires
            old(self).wf(),
        ensures
            final(self).wf(),
            r is Ok <==> old(self).stage@.len() + text_lines(content@).len() > 0,
            r is Err ==> r->Err_0 == FieldError::MalformedStageData && *final(self) == *old(self),
            r is Ok ==> {
                &&& final(self).stage@.len() == old(self).stage@.len() + text_lines(content@).len()
                &&& forall|i: int| 0 <= i < old(self).stage@.len() ==> #[trigger] final(self).stage@[i] == old(self).stage@[i]
                &&& forall|k: int| 0 <= k < text_lines(content@).len() ==>
                    #[trigger] final(self).stage@[old(self).stage@.len() + k]@ == stage_row(text_lines(content@)[k])
                &&& final(self).next_row == final(self).stage@.len() - 1
                &&& *final(self) == (Game { stage: final(self).stage, next_row: final(self).next_row, ..*old(self) })
            },
    {
        let lines = split_lines(content);
        if self.stage.len() == 0 && lines.len() == 0 {
            return Err(FieldError::MalformedStageData);
        }
        let ghost n0 = self.stage@.len();
        let mut k: usize = 0;
        while k < lines.len()
            invariant
                old(self).wf(),
                lines@.len() == text_lines(content@).len(),
                forall|j: int| 0 <= j < lines@.len() ==> #[trigger] lines@[j]@ == text_lines(content@)[j],
                k <= lines@.len(),
                n0 == old(self).stage@.len(),
                self.stage@.len() == n0 + k,
                forall|i: int| 0 <= i < n0 ==> #[trigger] self.stage@[i] == old(self).stage@[i],
                forall|j: int| 0 <= j < k ==> #[trigger] self.stage@[n0 + j]@ == stage_row(text_lines(content@)[j]),
                *self == (Game { stage: self.stage, ..*old(self) }),
            decreases lines@.len() - k,
        {
            let line = &lines[k];
            let mut row: Vec<Cell> = Vec::new();
            let mut x: usize = 0;
            while x < FIELD_W
                invariant
                    x <= FIELD_W,
                    row@.len() == x,
                    forall|i: int| 0 <= i < x ==> #[trigger] row@[i] == row_cell(line@, i),
                decreases FIELD_W - x,
            {
                let c = if x < line.len() {
                    line[x]
                } else {
                    EMPTY
                };
                row.push(c);
                x = x + 1;
            }
            assert(row@ =~= stage_row(line@));
            self.stage.push(row);
            k = k + 1;
        }
        self.next_row = self.stage.len() - 1;
        proof {
            assert forall|i: int| 0 <= i < self.stage@.len() implies (#[trigger] self.stage@[i])@.len() == FIELD_W by {
                if i >= n0 {
                    assert(self.stage@[n0 + (i - n0)]@ == stage_row(text_lines(content@)[i - n0]));
                }
            }
        }
        Ok(())
    }

    /// Brings in the next stage row. With no row left the stage is cleared
    /// and nothing moves; while a rectangle is being erased nothing happens.
    pub fn scroll(&mut self)
        requires
            old(self).wf(),
        ensures
            final(self).wf(),
            old(self).next_row == 0 ==> *final(self) == (Game { is_clear: true, ..*old(self) }),
            old(self).next_row != 0 && old(self).erasing_effects@.len() > 0 ==> *final(self) == *old(self),
            old(self).next_row != 0 && old(self).erasing_effects@.len() == 0 ==> {
                &&& forall|x: int, y: int| in_grid(x, y) ==> #[trigger] final(self).field.cell(x, y)
                    == scrolled_cell(old(self).field, old(self).stage@[old(self).next_row as int]@, x, y)
                &&& *final(self) == (Game {
                    field: final(self).field,
                    next_row: (old(self).next_row - 1) as usize,
                    ..*old(self)
                })
            },
    {
        if self.next_row == 0 {
            self.is_clear = true;
            return;
        }
        if self.erasing_effects.len() > 0 {
            return;
        }
        let ghost f0 = self.field;
        let ghost row = self.stage@[self.next_row as int]@;
        let mut y: usize = FIELD_H - 1;
        while y >= 1
            invariant
                old(self).wf(),
                old(self).next_row != 0,
                old(self).erasing_effects@.len() == 0,
                f0 == old(self).field,
                row == old(self).stage@[old(self).next_row as int]@,
                self.field.wf(),
                y < FIELD_H,
                forall|i: int, j: int| in_grid(i, j) && j <= y ==> #[trigger] self.field.cell(i, j) == f0.cell(i, j),
                forall|i: int, j: int| in_grid(i, j) && j > y ==> #[trigger] self.field.cell(i, j) == scrolled_cell(f0, row, i, j),
                *self == (Game { field: self.field, ..*old(self) }),
            decreases y,
        {
            let mut x: usize = 0;
            while x < FIELD_W
                invariant
                    old(self).wf(),
                    f0 == old(self).field,
                    self.field.wf(),
                    1 <= y < FIELD_H,
                    x <= FIELD_W,
                    forall|i: int, j: int|
                        in_grid(i, j) && (j < y || (j == y && i >= x)) ==> #[trigger] self.field.cell(i, j) == f0.cell(i, j),
                    forall|i: int, j: int|
                        in_grid(i, j) && (j > y || (j == y && i < x)) ==> #[trigger] self.field.cell(i, j) == scrolled_cell(f0, row, i, j),
                    *self == (Game { field: self.field, ..*old(self) }),
                decreases FIELD_W - x,
            {
                let here = self.field.get(x, y);
                let above = self.field.get(x, y - 1);
                if here != ERASING && above != ERASING {
                    self.field.set(x, y, above);
                }
                x = x + 1;
            }
            y = y - 1;
        }
        let mut x: usize = 0;
        while x < FIELD_W
            invariant
                old(self).wf(),
                old(self).next_row != 0,
                f0 == old(self).field,
                row == old(self).stage@[old(self).next_row as int]@,
                row.len() == FIELD_W,
                self.field.wf(),
                x <= FIELD_W,
                forall|i: int, j: int| in_grid(i, j) && j == 0 && i >= x ==> #[trigger] self.field.cell(i, j) == f0.cell(i, j),
                forall|i: int, j: int|
                    in_grid(i, j) && (j > 0 || i < x) ==> #[trigger] self.field.cell(i, j) == scrolled_cell(f0, row, i, j),
                *self == (Game { field: self.field, ..*old(self) }),
            decreases FIELD_W - x,
        {
            if self.field.get(x, 0) != ERASING {
                let c = self.stage[self.next_row][x];
                self.field.set(x, 0, c);
            }
            x = x + 1;
        }
        self.next_row = self.next_row - 1;
    }

    pub fn is_collide(&self, bullet: &Bullet) -> (r: bool)
        requires
            self.wf(),
        ensures
            r == collides(self.field, *bullet),
    {
        bullet.pos.y >= 1 && self.field.get(bullet.pos.x, bullet.pos.y - 1) != EMPTY
    }

    /// Starts erasing the largest reported rectangle that contains the
    /// point a bullet fixed at: its cells become `ERASING` and a new effect
    /// begins at its bottom-left cell.
    pub fn erase_rectangle(&mut self, bullet_pos: Point)
        requires
            old(self).wf(),
        ensures
            final(self).wf(),
            erases_at(
                old(self).field,
                final(self).field,
                old(self).erasing_effects@,
                final(self).erasing_effects@,
                bullet_pos.x as int,
                bullet_pos.y as int,
            ),
            *final(self) == (Game {
                field: final(self).field,
                erasing_effects: final(self).erasing_effects,
                ..*old(self)
            }),
    {
        let found = self.field.find_rectangle_to_be_erased(bullet_pos.x, bullet_pos.y);
        match found {
            None => {},
            Some(r) => {
                proof {
                    lemma_found_in_grid(old(self).field, r);
                }
                let ghost f0 = self.field;
                let mut y: usize = r.top;
                while y <= r.bottom
                    invariant
                        old(self).wf(),
                        f0 == old(self).field,
                        r.left < r.right < FIELD_W,
                        r.top < r.bottom < FIELD_H,
                        r.top <= y <= r.bottom + 1,
                        self.field.wf(),
                        forall|i: int, j: int| #[trigger] self.field.cell(i, j) == if r.contains(i, j) && j < y {
                            ERASING
                        } else {
                            f0.cell(i, j)
                        },
                        *self == (Game { field: self.field, ..*old(self) }),
                    decreases r.bottom + 1 - y,
                {
                    let mut x: usize = r.left;
                    while x <= r.right
                        invariant
                            old(self).wf(),
                            f0 == old(self).field,
                            r.left < r.right < FIELD_W,
                            r.top <= y <= r.bottom < FIELD_H,
                            r.left <= x <= r.right + 1,
                            self.field.wf(),
                            forall|i: int, j: int| #[trigger] self.field.cell(i, j) == if r.contains(i, j) && (j < y || (j == y && i < x)) {
                                ERASING
                            } else {
                                f0.cell(i, j)
                            },
                            *self == (Game { field: self.field, ..*old(self) }),
                        decreases r.right + 1 - x,
                    {
                        self.field.set(x, y, ERASING);
                        x = x + 1;
                    }
                    y = y + 1;
                }
                self.erasing_effects.push(
                    ErasingEffect {
                        exist: true,
                        cursor: Point::new(r.left, r.bottom),
                        erase_wait: ERASE_WAIT,
                        dir: Direction::Up,
                        left: r.left,
                        top: r.top,
                        right: r.right,
                        bottom: r.bottom,
                    },
                );
                proof {
                    assert(largest_containing(old(self).field, r, bullet_pos.x as int, bullet_pos.y as int));
                    assert forall|i: int| 0 <= i < self.erasing_effects@.len() implies (#[trigger] self.erasing_effects@[i]).wf() by {
                        if i < old(self).erasing_effects@.len() {
                            assert(self.erasing_effects@[i] == old(self).erasing_effects@[i]);
                        }
                    }
                }
            },
        }
    }

    /// Embeds a bullet at `pos`: the cell takes the label of the cell above
    /// it, a hit sound is asked for, and a rectangle around `pos` may start
    /// being erased.
    pub fn fix_bullet(&mut self, pos: Point)
        requires
            old(self).wf(),
            in_grid(pos.x as int, pos.y as int),
            pos.y >= 1,
        ensures
            final(self).wf(),
            exists|mid: Field| {
                &&& #[trigger] mid.cells@ == old(self).field.cells@.update(
                    pos.y * FIELD_W + pos.x,
                    old(self).field.cell(pos.x as int, pos.y - 1),
                )
                &&& erases_at(
                    mid,
                    final(self).field,
                    old(self).erasing_effects@,
                    final(self).erasing_effects@,
                    pos.x as int,
                    pos.y as int,
                )
            },
            final(self).requested_sounds@ == old(self).requested_sounds@.push(Sound::Hit),
            *final(self) == (Game {
                field: final(self).field,
                erasing_effects: final(self).erasing_effects,
                requested_sounds: final(self).requested_sounds,
                ..*old(self)
            }),
    {
        let label = self.field.get(pos.x, pos.y - 1);
        self.field.set(pos.x, pos.y, label);
        let ghost mid = self.field;
        self.erase_rectangle(pos);
        self.requested_sounds.push(Sound::Hit);
    }

    /// Advances every bullet by one frame. A bullet that fixes takes the
    /// label of the cell above it, stops existing, asks for a hit sound and
    /// may start erasing a rectangle around its cell.
    pub fn update_bullets(&mut self)
        requires
            old(self).wf(),
        ensures
            final(self).wf(),
            final(self).bullets@.len() == old(self).bullets@.len(),
            final(self).erasing_effects@.len() <= old(self).erasing_effects@.len() + old(self).bullets@.len(),
            appends_quietly(old(self).requested_sounds@, final(self).requested_sounds@),
            exists|fs: Seq<Field>, es: Seq<Seq<ErasingEffect>>, hits: Seq<bool>|
                #![trigger fs[0], es[0], count_true(hits)]
            {
                let n = old(self).bullets@.len() as int;
                &&& fs.len() == n + 1 && es.len() == n + 1 && hits.len() == n
                &&& fs[0] == old(self).field && es[0] == old(self).erasing_effects@
                &&& fs[n] == final(self).field && es[n] == final(self).erasing_effects@
                &&& forall|i: int| 0 <= i < n ==> #[trigger] bullet_frame(
                    fs[i],
                    es[i],
                    old(self).bullets@[i],
                    fs[i + 1],
                    es[i + 1],
                    final(self).bullets@[i],
                    hits[i],
                )
                &&& final(self).requested_sounds@ == old(self).requested_sounds@ + Seq::new(
                    count_true(hits),
                    |k: int| Sound::Hit,
                )
            },
            *final(self) == (Game {
                field: final(self).field,
                bullets: final(self).bullets,
                erasing_effects: final(self).erasing_effects,
                requested_sounds: final(self).requested_sounds,
                ..*old(self)
            }),
    {
        proof {
            lemma_appends_quietly_refl(self.requested_sounds@);
        }
        let ghost mut fs: Seq<Field> = seq![self.field];
        let ghost mut es: Seq<Seq<ErasingEffect>> = seq![self.erasing_effects@];
        let ghost mut hits: Seq<bool> = seq![];
        let mut i: usize = 0;
        while i < self.bullets.len()
            invariant
                self.wf(),
                i <= self.bullets@.len(),
                self.bullets@.len() == old(self).bullets@.len(),
                self.erasing_effects@.len() <= old(self).erasing_effects@.len() + i,
                appends_quietly(old(self).requested_sounds@, self.requested_sounds@),
                fs.len() == i + 1 && es.len() == i + 1 && hits.len() == i,
                fs[0] == old(self).field && es[0] == old(self).erasing_effects@,
                fs[i as int] == self.field && es[i as int] == self.erasing_effects@,
                forall|k: int| 0 <= k < i ==> #[trigger] bullet_frame(
                    fs[k],
                    es[k],
                    old(self).bullets@[k],
                    fs[k + 1],
                    es[k + 1],
                    self.bullets@[k],
                    hits[k],
                ),
                forall|k: int| i <= k < self.bullets@.len() ==> self.bullets@[k] == old(self).bullets@[k],
                self.requested_sounds@ == old(self).requested_sounds@ + Seq::new(
                    count_true(hits),
                    |k: int| Sound::Hit,
                ),
                *self == (Game {
                    field: self.field,
                    bullets: self.bullets,
                    erasing_effects: self.erasing_effects,
                    requested_sounds: self.requested_sounds,
                    ..*old(self)
                }),
            decreases self.bullets@.len() - i,
        {
            let b = self.bullets[i];
            let ghost f0 = self.field;
            let ghost e0 = self.erasing_effects@;
            let ghost hit = false;
            if b.exist {
                let (nb, fix) = advance_bullet(&self.field, b);
                if fix {
                    self.bullets.set(i, Bullet { exist: false, ..nb });
                    let ghost before = self.requested_sounds@;
                    self.fix_bullet(nb.pos);
                    proof {
                        hit = true;
                        lemma_appends_quietly_push(old(self).requested_sounds@, before, Sound::Hit);
                    }
                } else {
                    self.bullets.set(i, nb);
                }
            }
            proof {
                assert(bullet_frame(f0, e0, b, self.field, self.erasing_effects@, self.bullets@[i as int], hit));
                fs = fs.push(self.field);
                es = es.push(self.erasing_effects@);
                let old_hits = hits;
                hits = hits.push(hit);
                assert(hits.drop_last() =~= old_hits);
                assert(self.requested_sounds@ =~= old(self).requested_sounds@ + Seq::new(
                    count_true(hits),
                    |k: int| Sound::Hit,
                ));
            }
            i = i + 1;
        }
    }


    /// Advances every erase effect by one frame: one that still waits
    /// counts down; otherwise it takes one spiral step, asks for an erase
    /// sound, and on finishing adds its rectangle's area to the score.
    pub fn update_erasing_effects(&mut self)
        requires
            old(self).wf(),
            old(self).score + FIELD_W * FIELD_H * old(self).erasing_effects@.len() <= i32::MAX,
        ensures
            final(self).wf(),
            final(self).erasing_effects@.len() == old(self).erasing_effects@.len(),
            ({
                let ef = effects_frame(old(self).field.cells@, old(self).erasing_effects@);
                &&& final(self).field.cells@ == ef.0
                &&& final(self).erasing_effects@ == ef.1
                &&& final(self).score == old(self).score + ef.2
                &&& final(self).requested_sounds@ == old(self).requested_sounds@ + Seq::new(ef.3, |i: int| Sound::Erase)
            }),
            old(self).score <= final(self).score <= old(self).score + FIELD_W * FIELD_H * old(self).erasing_effects@.len(),
            appends_quietly(old(self).requested_sounds@, final(self).requested_sounds@),
            *final(self) == (Game {
                field: final(self).field,
                erasing_effects: final(self).erasing_effects,
                requested_sounds: final(self).requested_sounds,
                score: final(self).score,
                ..*old(self)
            }),
    {
        proof {
            lemma_appends_quietly_refl(self.requested_sounds@);
        }
        let mut i: usize = 0;
        while i < self.erasing_effects.len()
            invariant
                self.wf(),
                i <= self.erasing_effects@.len(),
                self.erasing_effects@.len() == old(self).erasing_effects@.len(),
                old(self).score <= self.score <= old(self).score + FIELD_W * FIELD_H * i,
                appends_quietly(old(self).requested_sounds@, self.requested_sounds@),
                ({
                    let ef = effects_frame(old(self).field.cells@, old(self).erasing_effects@.take(i as int));
                    &&& self.field.cells@ == ef.0
                    &&& self.erasing_effects@.take(i as int) == ef.1
                    &&& self.score == old(self).score + ef.2
                    &&& self.requested_sounds@ == old(self).requested_sounds@ + Seq::new(ef.3, |k: int| Sound::Erase)
                }),
                forall|k: int| i <= k < self.erasing_effects@.len() ==> self.erasing_effects@[k] == old(self).erasing_effects@[k],
                old(self).score + FIELD_W * FIELD_H * old(self).erasing_effects@.len() <= i32::MAX,
                *self == (Game {
                    field: self.field,
                    erasing_effects: self.erasing_effects,
                    requested_sounds: self.requested_sounds,
                    score: self.score,
                    ..*old(self)
                }),
            decreases self.erasing_effects@.len() - i,
        {
            let e = self.erasing_effects[i];
            let ghost n = old(self).erasing_effects@.len();
            let ghost olds = old(self).erasing_effects@;
            let ghost ef = effects_frame(old(self).field.cells@, olds.take(i as int));
            let ghost sounds_before = self.requested_sounds@;
            proof {
                assert(olds.take(i + 1).drop_last() =~= olds.take(i as int));
                assert(olds.take(i + 1).last() == e);
            }
            assert(self.erasing_effects@[i as int].wf());
            if e.exist {
                if e.erase_wait > 0 {
                    self.erasing_effects.set(i, ErasingEffect { erase_wait: e.erase_wait - 1, ..e });
                } else {
                    let (ne, done) = advance_effect(&mut self.field, e);
                    if done {
                        proof {
                            let w = e.right - e.left + 1;
                            let h = e.bottom - e.top + 1;
                            assert(w * h <= 16 * 18) by (nonlinear_arith)
                                requires
                                    1 <= w <= 16,
                                    1 <= h <= 18,
                            ;
                            assert(FIELD_W * FIELD_H * i + FIELD_W * FIELD_H == FIELD_W * FIELD_H * (i + 1)) by (nonlinear_arith);
                            assert(FIELD_W * FIELD_H * (i + 1) <= FIELD_W * FIELD_H * n) by (nonlinear_arith)
                                requires
                                    i + 1 <= n,
                            ;
                        }
                        self.score = self.score + ((e.right - e.left + 1) * (e.bottom - e.top + 1)) as i32;
                    }
                    self.erasing_effects.set(i, ne);
                    proof {
                        lemma_appends_quietly_push(old(self).requested_sounds@, self.requested_sounds@, Sound::Erase);
                    }
                    self.requested_sounds.push(Sound::Erase);
                }
            }
            proof {
                let r = effect_frame(ef.0, e);
                assert(self.erasing_effects@.take(i + 1) =~= ef.1.push(r.1));
                assert(self.requested_sounds@ =~= old(self).requested_sounds@ + Seq::new(
                    ef.3 + if r.3 { 1nat } else { 0nat },
                    |k: int| Sound::Erase,
                ));
                assert(FIELD_W * FIELD_H * i <= FIELD_W * FIELD_H * (i + 1)) by (nonlinear_arith);
            }
            i = i + 1;
        }
        assert(old(self).erasing_effects@.take(i as int) =~= old(self).erasing_effects@);
        assert(self.erasing_effects@.take(i as int) =~= self.erasing_effects@);
    }

    /// Whether another frame can run without a counter overflowing.
    pub fn can_update(&self) -> (r: bool)
        requires
            self.wf(),
        ensures
            r == self.has_room(),
    {
        let room: u128 = (FIELD_W * FIELD_H) as u128 * (self.erasing_effects.len() as u128
            + self.bullets.len() as u128);
        self.frame < i32::MAX && self.score as u128 + room <= i32::MAX as u128
    }

    /// Runs one frame with the player's `command` (which a loaded replay
    /// overrides) and returns the command that ran.
    pub fn update(&mut self, command: Command) -> (ran: Command)
        requires
            old(self).wf(),
            old(self).has_room(),
        ensures
            final(self).wf(),
            ran == old(self).effective_command(command),
            final(self).frame == old(self).frame + 1,
            old(self).is_over || old(self).is_clear ==> *final(self) == (Game {
                frame: (old(self).frame + 1) as i32,
                ..*old(self)
            }),
            !(old(self).is_over || old(self).is_clear) ==> {
                let g = *old(self);
                let cmd = old(self).effective_command(command);
                &&& final(self).scroll_wait == g.scroll_wait_after(cmd)
                &&& final(self).player_x == started(moved(g), cmd).player_x
                &&& final(self).move_wait == started(moved(g), cmd).move_wait
                &&& final(self).move_dir == started(moved(g), cmd).move_dir
                &&& final(self).shoot_wait == if g.fires(cmd) { SHOOT_WAIT as int } else { g.shoot_wait_ticked() }
                &&& g.fires(cmd) ==> final(self).bullets@.len() >= 1 && final(self).bullets@.last() == (Bullet {
                    pos: Point { x: final(self).player_x, y: (FIELD_H - 2) as usize },
                    offset_y: 0,
                    exist: true,
                })
                &&& final(self).bullets@.len() <= g.bullets@.len() + if g.fires(cmd) { 1int } else { 0 }
                &&& forall|i: int| 0 <= i < final(self).bullets@.len() ==> (#[trigger] final(self).bullets@[i]).exist
                &&& forall|i: int| 0 <= i < final(self).erasing_effects@.len() ==> (#[trigger] final(self).erasing_effects@[i]).exist
                &&& final(self).is_over == (bottom_filled(final(self).field, FIELD_W as int) > 0)
                &&& exists|others: Seq<Sound>| {
                    &&& !others.contains(Sound::Crash)
                    &&& final(self).requested_sounds@ == g.requested_sounds@ + others + Seq::new(
                        bottom_filled(final(self).field, FIELD_W as int),
                        |i: int| Sound::Crash,
                    )
                }
                &&& g.score <= final(self).score
                &&& final(self).stage == g.stage
                &&& final(self).commands == g.commands
                &&& final(self).is_debug == g.is_debug
            },
    {
        self.frame = self.frame + 1;
        let mut command = command;
        if self.commands.len() > 0 {
            command = if (self.frame as usize) < self.commands.len() {
                self.commands[self.frame as usize]
            } else {
                Command::Idle
            };
        }
        if self.is_over || self.is_clear {
            return command;
        }
        let ghost g = *old(self);
        self.tick_scroll(command);
        let ghost g1 = *self;
        self.advance_world();
        let ghost g3 = *self;
        self.act(command);
        let ghost g6 = *self;
        let ghost others = self.requested_sounds@.subrange(
            g.requested_sounds@.len() as int,
            self.requested_sounds@.len() as int,
        );
        proof {
            lemma_appends_quietly_trans(g1.requested_sounds@, g3.requested_sounds@, g6.requested_sounds@);
            assert(self.requested_sounds@ =~= g.requested_sounds@ + others);
            assert(!others.contains(Sound::Crash)) by {
                if others.contains(Sound::Crash) {
                    let k = choose|k: int| 0 <= k < others.len() && others[k] == Sound::Crash;
                    assert(self.requested_sounds@[g.requested_sounds@.len() + k] == Sound::Crash);
                }
            }
        }
        self.check_gameover();
        let ghost g7 = *self;
        proof {
            assert(g7.requested_sounds@ =~= g.requested_sounds@ + others + Seq::new(
                bottom_filled(g7.field, FIELD_W as int),
                |i: int| Sound::Crash,
            ));
        }
        self.drop_spent();
        proof {
            lemma_live_bullets_len(g7.bullets@);
            lemma_live_effects_len(g7.erasing_effects@);
            if g.fires(command) {
                assert(g7.bullets@.drop_last() =~= g3.bullets@);
                assert(live_bullets(g7.bullets@) == live_bullets(g3.bullets@).push(g7.bullets@.last()));
            }
        }
        command
    }

    /// The scroll countdown of one frame: hastened by `Up`, forced by an
    /// empty field, and scrolling when it runs out.
    fn tick_scroll(&mut self, command: Command)
        requires
            old(self).wf(),
        ensures
            final(self).wf(),
            final(self).scroll_wait == old(self).scroll_wait_after(command),
            *final(self) == (Game {
                field: final(self).field,
                next_row: final(self).next_row,
                is_clear: final(self).is_clear,
                scroll_wait: final(self).scroll_wait,
                ..*old(self)
            }),
    {
        if command == Command::Up {
            if self.scroll_wait > 5 {
                self.scroll_wait = 5;
            }
        }
        if self.is_field_empty() {
            self.scroll_wait = 1;
        }
        if self.scroll_wait > 0 {
            self.scroll_wait = self.scroll_wait - 1;
            if self.scroll_wait == 0 {
                self.scroll();
                self.scroll_wait = SCROLL_WAIT;
            }
        }
    }

    /// Moves the bullets, then the erase effects.
    fn advance_world(&mut self)
        requires
            old(self).wf(),
            old(self).score + FIELD_W * FIELD_H * (old(self).erasing_effects@.len() + old(self).bullets@.len())
                <= i32::MAX,
        ensures
            final(self).wf(),
            final(self).bullets@.len() == old(self).bullets@.len(),
            old(self).score <= final(self).score,
            appends_quietly(old(self).requested_sounds@, final(self).requested_sounds@),
            *final(self) == (Game {
                field: final(self).field,
                bullets: final(self).bullets,
                erasing_effects: final(self).erasing_effects,
                requested_sounds: final(self).requested_sounds,
                score: final(self).score,
                ..*old(self)
            }),
    {
        let ghost g1 = *self;
        self.update_bullets();
        let ghost g2 = *self;
        proof {
            let n = (g1.erasing_effects@.len() + g1.bullets@.len()) as int;
            let m = g2.erasing_effects@.len() as int;
            assert(FIELD_W * FIELD_H * m <= FIELD_W * FIELD_H * n) by (nonlinear_arith)
                requires
                    m <= n,
            ;
        }
        self.update_erasing_effects();
        proof {
            lemma_appends_quietly_trans(g1.requested_sounds@, g2.requested_sounds@, self.requested_sounds@);
        }
    }

    /// The player's part of a frame: the move animation and shoot cooldown
    /// tick, then the command fires or starts a move.
    fn act(&mut self, command: Command)
        requires
            old(self).wf(),
        ensures
            final(self).wf(),
            final(self).player_x == started(moved(*old(self)), command).player_x,
            final(self).move_wait == started(moved(*old(self)), command).move_wait,
            final(self).move_dir == started(moved(*old(self)), command).move_dir,
            final(self).shoot_wait == if old(self).fires(command) {
                SHOOT_WAIT as int
            } else {
                old(self).shoot_wait_ticked()
            },
            old(self).fires(command) ==> final(self).bullets@ == old(self).bullets@.push(
                Bullet { pos: Point { x: final(self).player_x, y: (FIELD_H - 2) as usize }, offset_y: 0, exist: true },
            ),
            !old(self).fires(command) ==> final(self).bullets@ == old(self).bullets@,
            appends_quietly(old(self).requested_sounds@, final(self).requested_sounds@),
            *final(self) == (Game {
                player_x: final(self).player_x,
                move_wait: final(self).move_wait,
                move_dir: final(self).move_dir,
                shoot_wait: final(self).shoot_wait,
                bullets: final(self).bullets,
                requested_sounds: final(self).requested_sounds,
                ..*old(self)
            }),
    {
        self.move_player();
        if self.shoot_wait > 0 {
            self.shoot_wait = self.shoot_wait - 1;
        }
        let ghost g5 = *self;
        match command {
            Command::Shoot => self.shoot(),
            Command::Left | Command::Right => self.start_move_player(command),
            _ => {},
        }
        proof {
            lemma_appends_quietly_refl(g5.requested_sounds@);
            if self.requested_sounds@ != g5.requested_sounds@ {
                lemma_appends_quietly_push(g5.requested_sounds@, g5.requested_sounds@, Sound::Shoot);
            }
        }
    }

    /// Removes the bullets and effects that no longer exist.
    fn drop_spent(&mut self)
        requires
            old(self).wf(),
        ensures
            final(self).wf(),
            final(self).bullets@ == live_bullets(old(self).bullets@),
            final(self).erasing_effects@ == live_effects(old(self).erasing_effects@),
            *final(self) == (Game {
                bullets: final(self).bullets,
                erasing_effects: final(self).erasing_effects,
                ..*old(self)
            }),
    {
        let mut bullets: Vec<Bullet> = Vec::new();
        let mut i: usize = 0;
        while i < self.bullets.len()
            invariant
                i <= self.bullets@.len(),
                bullets@ == live_bullets(self.bullets@.take(i as int)),
            decreases self.bullets@.len() - i,
        {
            assert(self.bullets@.take(i + 1).drop_last() =~= self.bullets@.take(i as int));
            if self.bullets[i].exist {
                bullets.push(self.bullets[i]);
            }
            i = i + 1;
        }
        assert(self.bullets@.take(i as int) =~= self.bullets@);
        let mut effects: Vec<ErasingEffect> = Vec::new();
        let mut i: usize = 0;
        while i < self.erasing_effects.len()
            invariant
                i <= self.erasing_effects@.len(),
                effects@ == live_effects(self.erasing_effects@.take(i as int)),
            decreases self.erasing_effects@.len() - i,
        {
            assert(self.erasing_effects@.take(i + 1).drop_last() =~= self.erasing_effects@.take(i as int));
            if self.erasing_effects[i].exist {
                effects.push(self.erasing_effects[i]);
            }
            i = i + 1;
        }
        assert(self.erasing_effects@.take(i as int) =~= self.erasing_effects@);
        proof {
            lemma_live_bullets_len(self.bullets@);
            lemma_live_effects_len(self.erasing_effects@);
            assert forall|k: int| 0 <= k < bullets@.len() implies (#[trigger] bullets@[k]).wf() by {
                let j = choose|j: int| 0 <= j < self.bullets@.len() && #[trigger] live_bullets(self.bullets@)[k] == self.bullets@[j];
                assert(self.bullets@[j].wf());
            }
            assert forall|k: int| 0 <= k < effects@.len() implies (#[trigger] effects@[k]).wf() by {
                let j = choose|j: int| 0 <= j < self.erasing_effects@.len() && #[trigger] live_effects(self.erasing_effects@)[k] == self.erasing_effects@[j];
                assert(self.erasing_effects@[j].wf());
            }
        }
        self.bullets = bullets;
        self.erasing_effects = effects;
    }

    pub fn is_field_empty(&self) -> (r: bool)
        requires
            self.wf(),
        ensures
            r == field_empty(self.field),
    {
        let mut y: usize = 0;
        while y < FIELD_H
            invariant
                self.wf(),
                y <= FIELD_H,
                forall|i: int, j: int| 0 <= i < FIELD_W && 0 <= j < y ==> #[trigger] self.field.cell(i, j) == EMPTY,
            decreases FIELD_H - y,
        {
            let mut x: usize = 0;
            while x < FIELD_W
                invariant
                    self.wf(),
                    y < FIELD_H,
                    x <= FIELD_W,
                    forall|i: int, j: int|
                        (0 <= i < FIELD_W && 0 <= j < y) || (0 <= i < x && j == y) ==> #[trigger] self.field.cell(i, j) == EMPTY,
                decreases FIELD_W - x,
            {
                if self.field.get(x, y) != EMPTY {
                    return false;
                }
                x = x + 1;
            }
            y = y + 1;
        }
        true
    }

    /// Advances the move animation; the player's column changes on the
    /// tick where the wait reaches zero.
    pub fn move_player(&mut self)
        requires
            old(self).wf(),
        ensures
            final(self).wf(),
            old(self).move_wait <= 0 ==> *final(self) == *old(self),
            old(self).move_wait > 0 ==> {
                let w = (old(self).move_wait - 1) as i32;
                let x = old(self).player_x;
                *final(self) == (Game {
                    move_wait: w,
                    player_x: if w == 0 && old(self).move_dir == Direction::Left {
                        (x - 1) as usize
                    } else if w == 0 && old(self).move_dir == Direction::Right {
                        (x + 1) as usize
                    } else {
                        x
                    },
                    ..*old(self)
                })
            },
    {
        if self.move_wait > 0 {
            self.move_wait = self.move_wait - 1;
            if self.move_dir == Direction::Left {
                if self.move_wait == 0 {
                    self.player_x = self.player_x - 1;
                }
            } else if self.move_dir == Direction::Right {
                if self.move_wait == 0 {
                    self.player_x = self.player_x + 1;
                }
            }
        }
    }

    /// Starts a move to the left or right, if none is under way and the
    /// player stays on the grid.
    pub fn start_move_player(&mut self, command: Command)
        requires
            old(self).wf(),
        ensures
            final(self).wf(),
            ({
                let d = if command == Command::Left { Direction::Left } else { Direction::Right };
                if old(self).move_wait == 0 && (command == Command::Left || command == Command::Right)
                    && old(self).move_fits(d) {
                    *final(self) == (Game { move_dir: d, move_wait: MOVE_WAIT, ..*old(self) })
                } else {
                    *final(self) == *old(self)
                }
            }),
    {
        if self.move_wait == 0 {
            match command {
                Command::Left => {
                    if self.player_x >= 1 {
                        self.move_dir = Direction::Left;
                        self.move_wait = MOVE_WAIT;
                    }
                },
                Command::Right => {
                    if self.player_x + 1 < FIELD_W {
                        self.move_dir = Direction::Right;
                        self.move_wait = MOVE_WAIT;
                    }
                },
                _ => {},
            }
        }
    }

    /// Fires a bullet from the player's column, unless the cooldown runs
    /// or the bullets in flight reach the cap.
    pub fn shoot(&mut self)
        requires
            old(self).wf(),
        ensures
            final(self).wf(),
            old(self).shoot_wait > 0 || old(self).bullets@.len() >= BULLET_COUNT_MAX ==> *final(self)
                == *old(self),
            !(old(self).shoot_wait > 0 || old(self).bullets@.len() >= BULLET_COUNT_MAX) ==> {
                &&& final(self).bullets@ == old(self).bullets@.push(
                    Bullet { pos: Point { x: old(self).player_x, y: (FIELD_H - 2) as usize }, offset_y: 0, exist: true },
                )
                &&& final(self).requested_sounds@ == old(self).requested_sounds@.push(Sound::Shoot)
                &&& *final(self) == (Game {
                    bullets: final(self).bullets,
                    requested_sounds: final(self).requested_sounds,
                    shoot_wait: SHOOT_WAIT,
                    ..*old(self)
                })
            },
    {
        if self.shoot_wait > 0 {
            return;
        }
        if self.bullets.len() >= BULLET_COUNT_MAX as usize {
            return;
        }
        let bullet = Bullet::new(self.player_x);
        self.bullets.push(bullet);
        self.shoot_wait = SHOOT_WAIT;
        self.requested_sounds.push(Sound::Shoot);
        proof {
            assert forall|i: int| 0 <= i < self.bullets@.len() implies (#[trigger] self.bullets@[i]).wf() by {
                if i < old(self).bullets@.len() {
                    assert(self.bullets@[i] == old(self).bullets@[i]);
                }
            }
        }
    }

    /// Progress through the stage in percent: `100 - 100 * next_row / rows`,
    /// rounded toward zero; 100 once cleared or when there is no stage.
    pub fn get_progress(&self) -> (p: i32)
        requires
            self.wf(),
        ensures
            self.is_clear || self.stage@.len() == 0 ==> p == 100,
            !(self.is_clear || self.stage@.len() == 0) ==> {
                let n = self.next_row as int;
                let len = self.stage@.len() as int;
                &&& 0 <= p <= 100
                &&& p * len <= 100 * len - 100 * n < (p + 1) * len
            },
    {
        if self.is_clear || self.stage.len() == 0 {
            return 100;
        }
        let n = self.next_row as u128;
        let len = self.stage.len() as u128;
        let ceil = (100 * n + len - 1) / len;
        proof {
            let q = (100 * n + len - 1) as int / len as int;
            assert(q * len <= 100 * n + len - 1 < (q + 1) * len) by (nonlinear_arith)
                requires
                    len > 0,
                    q == (100 * n + len - 1) as int / len as int,
            ;
            assert(q <= 100) by (nonlinear_arith)
                requires
                    q * len <= 100 * n + len - 1,
                    n < len,
                    len > 0,
            ;
            assert((100 - q) * len <= 100 * len - 100 * n < (101 - q) * len) by (nonlinear_arith)
                requires
                    q * len <= 100 * n + len - 1 < (q + 1) * len,
            ;
        }
        (100 - ceil) as i32
    }

    /// Where a shot from the player's column would land, if it is clear.
    pub fn get_sight_pos(&self) -> (r: Option<Point>)
        requires
            self.wf(),
        ensures
            r == sight_from(self.field, self.player_x as int, FIELD_H - 2),
    {
        let mut y: usize = FIELD_H - 1;
        while y > 0
            invariant
                self.wf(),
                y <= FIELD_H - 1,
                sight_from(self.field, self.player_x as int, FIELD_H - 2) == sight_from(
                    self.field,
                    self.player_x as int,
                    y - 1,
                ),
            decreases y,
        {
            y = y - 1;
            let cell = self.field.get(self.player_x, y);
            if cell != EMPTY && cell != ERASING {
                if self.field.get(self.player_x, y + 1) == EMPTY {
                    return Some(Point::new(self.player_x, y + 1));
                } else {
                    return None;
                }
            }
        }
        None
    }

    /// Ends the game when the bottom row holds anything, asking for one
    /// crash sound per filled cell there.
    pub fn check_gameover(&mut self)
        requires
            old(self).wf(),
        ensures
            final(self).wf(),
            final(self).is_over == (old(self).is_over || bottom_filled(old(self).field, FIELD_W as int) > 0),
            final(self).requested_sounds@ == old(self).requested_sounds@ + Seq::new(
                bottom_filled(old(self).field, FIELD_W as int),
                |i: int| Sound::Crash,
            ),
            *final(self) == (Game {
                is_over: final(self).is_over,
                requested_sounds: final(self).requested_sounds,
                ..*old(self)
            }),
    {
        let mut x: usize = 0;
        while x < FIELD_W
            invariant
                old(self).wf(),
                x <= FIELD_W,
                self.is_over == (old(self).is_over || bottom_filled(old(self).field, x as int) > 0),
                self.requested_sounds@ == old(self).requested_sounds@ + Seq::new(
                    bottom_filled(old(self).field, x as int),
                    |i: int| Sound::Crash,
                ),
                *self == (Game { is_over: self.is_over, requested_sounds: self.requested_sounds, ..*old(self) }),
            decreases FIELD_W - x,
        {
            if self.field.get(x, FIELD_H - 1) != EMPTY {
                self.is_over = true;
                self.requested_sounds.push(Sound::Crash);
            }
            x = x + 1;
            assert(self.requested_sounds@ =~= old(self).requested_sounds@ + Seq::new(
                bottom_filled(old(self).field, x as int),
                |i: int| Sound::Crash,
            ));
        }
    }
}

} // verus!
