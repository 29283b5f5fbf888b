//! The sample application that runs over the shared regions: a grid of
//! walls in the read-only region, a hunter and its runners in the
//! read-write region, and the moves they make.
use vstd::prelude::*;
use rand::Rng;
use crate::signal::ProtocolError;

verus! {

/// Grid width in cells.
pub const GRID_W: i32 = 50;
/// Grid height in cells.
pub const GRID_H: i32 = 30;
/// Walls scattered over a fresh grid.
pub const N_BLOCKS: i32 = 150;
/// Runners in the read-write region.
pub const N_RUNNERS: i32 = 15;
/// Cells flipped when the host modifies the grid.
pub const N_FLIPS: i32 = 5;
/// Bytes of the read-only region: one `i32` per cell.
pub const READ_ONLY_BUF_SIZE: i32 = GRID_W * GRID_H * 4;
/// Bytes of the read-write region: the signal slots, the hunter's two
/// `i32`s and three for each runner.
pub const READ_WRITE_BUF_SIZE: i32 = crate::signal::SIGNAL_BYTES + 8 + N_RUNNERS * 12;

/// What a runner is doing.
#[derive(Clone, Copy, Debug, PartialEq, Eq, Structural)]
pub enum State {
    Walking,
    Running,
    Dead,
}

pub open spec fn state_value(s: State) -> i32 {
    match s {
        State::Walking => 0,
        State::Running => 1,
        State::Dead => 2,
    }
}

impl State {
    /// The state with value `value`.
    pub fn from(value: i32) -> (r: State)
        requires
            0 <= value < 3,
        ensures
            state_value(r) == value,
    {
        if value == 0 {
            State::Walking
        } else if value == 1 {
            State::Running
        } else {
            State::Dead
        }
    }

    /// Decodes a state read from shared memory; a value outside the three
    /// states is reported.
    pub fn decode(value: i32) -> (r: Result<State, ProtocolError>)
        ensures
            match r {
                Ok(s) => state_value(s) == value,
                Err(e) => e == ProtocolError::UnknownSignal(value) && !(0 <= value < 3),
            },
    {
        if 0 <= value && value < 3 {
            Ok(State::from(value))
        } else {
            Err(ProtocolError::UnknownSignal(value))
        }
    }
}

/// A runner on the grid.
#[derive(Clone, Copy, Debug, PartialEq, Eq, Structural)]
pub struct Runner {
    pub x: usize,
    pub y: usize,
    pub state: State,
}

/// The hunter on the grid.
#[derive(Clone, Copy, Debug, PartialEq, Eq, Structural)]
pub struct Hunter {
    pub x: usize,
    pub y: usize,
}

/// A cell position as the host reads it from shared memory.
#[derive(Clone, Copy, Debug, PartialEq, Eq, Structural)]
pub struct Position {
    pub x: i32,
    pub y: i32,
}

// ------------------------------------------------------------ random steps

/// The guest's pseudo-random generator: a 32-bit state that each draw
/// moves to `(state + 137) * 7`, wrapping.
#[derive(Clone, Copy, Debug, PartialEq, Eq, Structural)]
pub struct RandState {
    pub value: u32,
}

pub open spec fn next_value(v: u32) -> u32 {
    v.wrapping_add(137).wrapping_mul(7)
}

/// The step in -1..=1 that a raw draw `v` gives.
pub open spec fn step_of_draw(v: u32) -> i32 {
    let r = v as i32;
    let a: int = if r < 0 { -(r as int) } else { r as int };
    (a % 3 - 1) as i32
}

/// A generator seeded with `seed`.
pub fn srand(seed: u32) -> (r: RandState)
    ensures
        r.value == seed,
{
    RandState { value: seed }
}

/// Draws the next raw value.
pub fn rand_usize(state: &mut RandState) -> (r: u32)
    ensures
        r == next_value(old(state).value),
        final(state).value == r,
{
    let v = state.value.wrapping_add(137).wrapping_mul(7);
    state.value = v;
    v
}

/// Draws the next value as a signed number.
pub fn rand(state: &mut RandState) -> (r: i32)
    ensures
        r == next_value(old(state).value) as i32,
        final(state).value == next_value(old(state).value),
{
    rand_usize(state) as i32
}

/// Draws a step of -1, 0 or 1.
pub fn rand_step(state: &mut RandState) -> (r: i32)
    ensures
        r == step_of_draw(next_value(old(state).value)),
        -1 <= r <= 1,
        final(state).value == next_value(old(state).value),
{
    let r = rand(state) as i64;
    let a: i64 = if r < 0 { -r } else { r };
    (a % 3 - 1) as i32
}

/// The sign of `delta`: a move of at most one cell.
pub fn step(delta: i32) -> (r: i32)
    ensures
        r == (if delta > 0 { 1i32 } else if delta < 0 { -1i32 } else { 0i32 }),
{
    if delta > 0 {
        1
    } else if delta < 0 {
        -1
    } else {
        0
    }
}

/// Relies on rand's `Rng::gen_range` over `thread_rng`: a number drawn from
/// `low..=high`, which it returns for a non-empty range.
#[verifier::external_body]
fn draw_in_range(low: i32, high: i32) -> (r: i32)
    requires
        low <= high,
    ensures
        low <= r <= high,
{
    rand::thread_rng().gen_range(low..=high)
}

/// A random number in `a..=b`.
pub fn rand_range(a: i32, b: i32) -> (r: i32)
    requires
        a <= b,
    ensures
        a <= r <= b,
{
    draw_in_range(a, b)
}

// -------------------------------------------------------------------- grid

/// The walls of the read-only region: one `i32` per cell, row by row; 1 is
/// a wall.
pub struct Grid {
    width: i32,
    height: i32,
    cells: Vec<i32>,
}

pub open spec fn cell_index(width: int, x: int, y: int) -> int {
    y * width + x
}

impl Grid {
    pub closed spec fn width_spec(&self) -> int {
        self.width as int
    }

    pub closed spec fn height_spec(&self) -> int {
        self.height as int
    }

    /// The cells, row by row.
    pub closed spec fn view(&self) -> Seq<i32> {
        self.cells@
    }

    /// Every cell is a wall (1) or open (0).
    pub open spec fn wf(&self) -> bool {
        &&& self.width_spec() > 0
        &&& self.height_spec() > 0
        &&& self.view().len() == self.width_spec() * self.height_spec()
        &&& forall|i: int| 0 <= i < self.view().len() ==> (#[trigger] self.view()[i] == 0 || self.view()[i] == 1)
    }

    /// The cell at `(x, y)`.
    pub open spec fn at(&self, x: int, y: int) -> i32 {
        self.view()[cell_index(self.width_spec(), x, y)]
    }

    pub open spec fn on_grid(&self, x: int, y: int) -> bool {
        0 <= x < self.width_spec() && 0 <= y < self.height_spec()
    }

    pub open spec fn on_border(&self, x: int, y: int) -> bool {
        x == 0 || y == 0 || x == self.width_spec() - 1 || y == self.height_spec() - 1
    }

    /// A grid of `width` by `height` open cells.
    pub fn new(width: i32, height: i32) -> (r: Grid)
        requires
            width > 0,
            height > 0,
            width * height <= i32::MAX,
        ensures
            r.wf(),
            r.width_spec() == width,
            r.height_spec() == height,
            forall|i: int| 0 <= i < r.view().len() ==> r.view()[i] == 0,
    {
        let n = (width * height) as usize;
        let mut cells: Vec<i32> = Vec::new();
        let mut i: usize = 0;
        while i < n
            invariant
                i <= n,
                cells@.len() == i,
                forall|k: int| 0 <= k < i ==> cells@[k] == 0,
            decreases n - i,
        {
            cells.push(0);
            i = i + 1;
        }
        Grid { width, height, cells }
    }

    pub fn width(&self) -> (r: i32)
        ensures
            r == self.width_spec(),
    {
        self.width
    }

    pub fn height(&self) -> (r: i32)
        ensures
            r == self.height_spec(),
    {
        self.height
    }

    proof fn lemma_index_in_range(&self, x: int, y: int)
        requires
            self.wf(),
            self.on_grid(x, y),
        ensures
            0 <= cell_index(self.width_spec(), x, y) < self.view().len(),
    {
        let w = self.width_spec();
        let h = self.height_spec();
        assert(0 <= y * w + x < w * h) by (nonlinear_arith)
            requires 0 <= x < w, 0 <= y < h;
    }

    /// The cell at `(x, y)`.
    pub fn get(&self, x: i32, y: i32) -> (r: i32)
        requires
            self.wf(),
            self.on_grid(x as int, y as int),
        ensures
            r == self.at(x as int, y as int),
    {
        let n = self.cells.len();
        proof {
            self.lemma_index_in_range(x as int, y as int);
        }
        self.cells[(y as usize) * (self.width as usize) + (x as usize)]
    }

    /// Sets the cell at `(x, y)` to `val`.
    pub fn set(&mut self, x: i32, y: i32, val: i32)
        requires
            old(self).wf(),
            old(self).on_grid(x as int, y as int),
            val == 0 || val == 1,
        ensures
            final(self).wf(),
            final(self).width_spec() == old(self).width_spec(),
            final(self).height_spec() == old(self).height_spec(),
            final(self).view() == old(self).view().update(cell_index(old(self).width_spec(), x as int, y as int), val),
    {
        let n = self.cells.len();
        proof {
            self.lemma_index_in_range(x as int, y as int);
        }
        let i = (y as usize) * (self.width as usize) + (x as usize);
        self.cells.set(i, val);
    }

    /// Turns a wall at `(x, y)` into an open cell and an open cell into a wall.
    pub fn flip(&mut self, x: i32, y: i32)
        requires
            old(self).wf(),
            old(self).on_grid(x as int, y as int),
        ensures
            final(self).wf(),
            final(self).width_spec() == old(self).width_spec(),
            final(self).height_spec() == old(self).height_spec(),
            final(self).view() == old(self).view().update(
                cell_index(old(self).width_spec(), x as int, y as int),
                (1 - old(self).at(x as int, y as int)) as i32,
            ),
    {
        proof {
            self.lemma_index_in_range(x as int, y as int);
        }
        let v = self.get(x, y);
        self.set(x, y, 1 - v);
    }

    /// Walls all round the border and open cells inside.
    pub fn clear_with_border(&mut self)
        requires
            old(self).wf(),
        ensures
            final(self).wf(),
            final(self).width_spec() == old(self).width_spec(),
            final(self).height_spec() == old(self).height_spec(),
            forall|x: int, y: int| #[trigger] final(self).on_grid(x, y) ==>
                final(self).at(x, y) == (if final(self).on_border(x, y) { 1i32 } else { 0i32 }),
    {
        let w = self.width;
        let h = self.height;
        let mut y: i32 = 0;
        while y < h
            invariant
                self.wf(),
                w == self.width_spec(),
                h == self.height_spec(),
                0 <= y <= h,
                forall|a: int, b: int| #[trigger] self.on_grid(a, b) && b < y ==>
                    self.at(a, b) == (if self.on_border(a, b) { 1i32 } else { 0i32 }),
            decreases h - y,
        {
            let mut x: i32 = 0;
            while x < w
                invariant
                    self.wf(),
                    w == self.width_spec(),
                    h == self.height_spec(),
                    0 <= y < h,
                    0 <= x <= w,
                    forall|a: int, b: int| #[trigger] self.on_grid(a, b) && (b < y || (b == y && a < x)) ==>
                        self.at(a, b) == (if self.on_border(a, b) { 1i32 } else { 0i32 }),
                decreases w - x,
            {
                let border = x == 0 || y == 0 || x == w - 1 || y == h - 1;
                let ghost prev = *self;
                self.set(x, y, if border { 1 } else { 0 });
                proof {
                    assert forall|a: int, b: int| #[trigger] self.on_grid(a, b) && (b < y || (b == y && a < x + 1)) implies
                        self.at(a, b) == (if self.on_border(a, b) { 1i32 } else { 0i32 }) by {
                        self.lemma_index_in_range(a, b);
                        lemma_cells_distinct(w as int, h as int, a, b, x as int, y as int);
                        assert(prev.on_grid(a, b));
                        self.lemma_index_in_range(x as int, y as int);
                        if a != x || b != y {
                            assert(self.view()[cell_index(w as int, a, b)] == prev.view()[cell_index(w as int, a, b)]);
                        }
                    }
                }
                x = x + 1;
            }
            y = y + 1;
        }
    }

    /// A fresh grid: walls round the border, open inside, then `N_BLOCKS`
    /// walls at random inner cells.
    pub fn init(&mut self)
        requires
            old(self).wf(),
            old(self).width_spec() >= 3,
            old(self).height_spec() >= 3,
        ensures
            final(self).wf(),
            final(self).width_spec() == old(self).width_spec(),
            final(self).height_spec() == old(self).height_spec(),
            forall|x: int, y: int| #[trigger] final(self).on_grid(x, y) && final(self).on_border(x, y) ==>
                final(self).at(x, y) == 1,
    {
        self.clear_with_border();
        let mut k: i32 = 0;
        while k < N_BLOCKS
            invariant
                self.wf(),
                self.width_spec() == old(self).width_spec(),
                self.height_spec() == old(self).height_spec(),
                self.width_spec() >= 3,
                self.height_spec() >= 3,
                0 <= k <= N_BLOCKS,
                forall|x: int, y: int| #[trigger] self.on_grid(x, y) && self.on_border(x, y) ==> self.at(x, y) == 1,
            decreases N_BLOCKS - k,
        {
            let x = rand_range(1, self.width - 2);
            let y = rand_range(1, self.height - 2);
            self.place_inner(x, y, 1);
            k = k + 1;
        }
    }

    /// Flips `N_FLIPS` random inner cells; the border stays walled.
    pub fn modify(&mut self)
        requires
            old(self).wf(),
            old(self).width_spec() >= 3,
            old(self).height_spec() >= 3,
            forall|x: int, y: int| #[trigger] old(self).on_grid(x, y) && old(self).on_border(x, y) ==> old(self).at(x, y) == 1,
        ensures
            final(self).wf(),
            final(self).width_spec() == old(self).width_spec(),
            final(self).height_spec() == old(self).height_spec(),
            forall|x: int, y: int| #[trigger] final(self).on_grid(x, y) && final(self).on_border(x, y) ==>
                final(self).at(x, y) == 1,
    {
        let mut k: i32 = 0;
        while k < N_FLIPS
            invariant
                self.wf(),
                self.width_spec() == old(self).width_spec(),
                self.height_spec() == old(self).height_spec(),
                self.width_spec() >= 3,
                self.height_spec() >= 3,
                0 <= k <= N_FLIPS,
                forall|x: int, y: int| #[trigger] self.on_grid(x, y) && self.on_border(x, y) ==> self.at(x, y) == 1,
            decreases N_FLIPS - k,
        {
            let x = rand_range(1, self.width - 2);
            let y = rand_range(1, self.height - 2);
            let v = self.get(x, y);
            proof {
                self.lemma_index_in_range(x as int, y as int);
            }
            self.place_inner(x, y, 1 - v);
            k = k + 1;
        }
    }

    /// Sets an inner cell, leaving every other cell as it was.
    fn place_inner(&mut self, x: i32, y: i32, val: i32)
        requires
            old(self).wf(),
            1 <= x < old(self).width_spec() - 1,
            1 <= y < old(self).height_spec() - 1,
            val == 0 || val == 1,
            forall|a: int, b: int| #[trigger] old(self).on_grid(a, b) && old(self).on_border(a, b) ==> old(self).at(a, b) == 1,
        ensures
            final(self).wf(),
            final(self).width_spec() == old(self).width_spec(),
            final(self).height_spec() == old(self).height_spec(),
            forall|a: int, b: int| #[trigger] final(self).on_grid(a, b) && final(self).on_border(a, b) ==> final(self).at(a, b) == 1,
    {
        let ghost w = self.width_spec();
        let ghost h = self.height_spec();
        let ghost prev = *self;
        self.set(x, y, val);
        proof {
            assert forall|a: int, b: int| #[trigger] self.on_grid(a, b) && self.on_border(a, b) implies self.at(a, b) == 1 by {
                self.lemma_index_in_range(a, b);
                lemma_cells_distinct(w, h, a, b, x as int, y as int);
                assert(prev.on_grid(a, b));
                self.lemma_index_in_range(x as int, y as int);
                assert(self.view()[cell_index(w, a, b)] == prev.view()[cell_index(w, a, b)]);
            }
        }
    }
}

/// Two different cells have different indexes.
proof fn lemma_cells_distinct(w: int, h: int, a: int, b: int, x: int, y: int)
    requires
        0 <= a < w,
        0 <= x < w,
        0 <= b < h,
        0 <= y < h,
    ensures
        (a != x || b != y) ==> cell_index(w, a, b) != cell_index(w, x, y),
{
    if b != y {
        if b < y {
            assert(b * w + a < y * w + x) by (nonlinear_arith)
                requires b < y, 0 <= a < w, 0 <= x;
        } else {
            assert(y * w + x < b * w + a) by (nonlinear_arith)
                requires y < b, 0 <= x < w, 0 <= a;
        }
    }
}

// ------------------------------------------------------------------ moves

/// A cell that can be entered: on the grid and not a wall.
pub open spec fn open_cell(g: &Grid, x: int, y: int) -> bool {
    g.on_grid(x, y) && g.at(x, y) != 1
}

pub open spec fn sign(d: i32) -> int {
    if d > 0 { 1 } else if d < 0 { -1 } else { 0 }
}

/// `v + d` when that lies in `0..limit`.
fn shifted(v: usize, d: i32, limit: usize) -> (r: Option<usize>)
    requires
        -1 <= d <= 1,
    ensures
        match r {
            Some(t) => t == v + d && t < limit,
            None => !(0 <= v + d < limit),
        },
{
    if d < 0 {
        if v == 0 || v - 1 >= limit { None } else { Some(v - 1) }
    } else if d > 0 {
        if v >= limit || limit - v <= 1 { None } else { Some(v + 1) }
    } else {
        if v >= limit { None } else { Some(v) }
    }
}

/// Where `move_by` leaves a mover at `(x, y)` heading for `(mx, my)` with
/// generator state `v`, and the generator state after.
pub open spec fn moved(grid: &Grid, x: int, y: int, mx: i32, my: i32, v: u32) -> (int, int, u32) {
    let tx = x + sign(mx);
    let ty = y + sign(my);
    let v1 = next_value(v);
    let v2 = next_value(v1);
    let ax = x + step_of_draw(v1);
    let ay = y + step_of_draw(v2);
    if !grid.on_grid(tx, ty) {
        (x, y, v)
    } else if grid.at(tx, ty) != 1 {
        (tx, ty, v)
    } else if open_cell(grid, ax, ay) {
        (ax, ay, v2)
    } else {
        (x, y, v2)
    }
}

/// Moves `(x, y)` one cell towards `(mx, my)` (by their signs). Off the grid
/// it stays; into a wall it tries one random step instead, and stays if that
/// is off the grid or a wall too. Only the random step draws from `rng`.
pub fn move_by(grid: &Grid, x: &mut usize, y: &mut usize, mx: i32, my: i32, rng: &mut RandState)
    requires
        grid.wf(),
    ensures
        moved(grid, *old(x) as int, *old(y) as int, mx, my, old(rng).value)
            == (*final(x) as int, *final(y) as int, final(rng).value),
{
    let w = grid.width() as usize;
    let h = grid.height() as usize;
    let sx = step(mx);
    let sy = step(my);
    let (tx, ty) = match (shifted(*x, sx, w), shifted(*y, sy, h)) {
        (Some(tx), Some(ty)) => (tx, ty),
        _ => return,
    };
    if grid.get(tx as i32, ty as i32) != 1 {
        *x = tx;
        *y = ty;
        return;
    }
    let rx = rand_step(rng);
    let ry = rand_step(rng);
    let (ax, ay) = match (shifted(*x, rx, w), shifted(*y, ry, h)) {
        (Some(ax), Some(ay)) => (ax, ay),
        _ => return,
    };
    if grid.get(ax as i32, ay as i32) != 1 {
        *x = ax;
        *y = ay;
    }
}

// ----------------------------------------------------------------- actors

/// The host's view of the read-write region as `i32`s: the signal slots,
/// the hunter's `x, y`, then `x, y, state` for each runner.
pub struct Actors {
    data: Vec<i32>,
}

/// Where the hunter's coordinates start.
pub const HUNTER_AT: usize = 2;
/// Where the first runner starts.
pub const RUNNERS_AT: usize = 4;

impl Actors {
    pub closed spec fn view(&self) -> Seq<i32> {
        self.data@
    }

    pub fn new(data: Vec<i32>) -> (r: Actors)
        ensures
            r.view() == data@,
    {
        Actors { data }
    }

    /// The hunter's position.
    pub fn hunter(&self) -> (r: Position)
        requires
            self.view().len() >= 4,
        ensures
            r == (Position { x: self.view()[2], y: self.view()[3] }),
    {
        Position { x: self.data[HUNTER_AT], y: self.data[HUNTER_AT + 1] }
    }

    /// Runner `index`'s position and state; a state outside the three is
    /// reported.
    pub fn runner(&self, index: i32) -> (r: Result<(Position, State), ProtocolError>)
        requires
            0 <= index,
            4 + 3 * index + 3 <= self.view().len(),
        ensures
            ({
                let i = 4 + 3 * index;
                match r {
                    Ok((p, s)) => p == (Position { x: self.view()[i], y: self.view()[i + 1] })
                        && state_value(s) == self.view()[i + 2],
                    Err(e) => e == ProtocolError::UnknownSignal(self.view()[i + 2]) && !(0 <= self.view()[i + 2] < 3),
                }
            }),
    {
        let len = self.data.len();
        let i = RUNNERS_AT + 3 * (index as usize);
        let pos = Position { x: self.data[i], y: self.data[i + 1] };
        match State::decode(self.data[i + 2]) {
            Ok(s) => Ok((pos, s)),
            Err(e) => Err(e),
        }
    }
}

// ------------------------------------------------------------ guest moves

/// The squared distance from the hunter to a runner.
pub open spec fn sq_dist(r: Runner, h: Hunter) -> int {
    (r.x - h.x) * (r.x - h.x) + (r.y - h.y) * (r.y - h.y)
}

/// Beyond this squared distance the hunter ignores a runner.
pub const CHASE_LIMIT: i64 = 99999;
/// Within this distance a runner runs from the hunter.
pub const SCARE_DIST: i64 = 10;

/// Runner `i` is the one the hunter chases: alive, in range, strictly nearer
/// than every live runner before it and no farther than every one after it.
pub open spec fn is_target(rs: Seq<Runner>, h: Hunter, i: int) -> bool {
    &&& 0 <= i < rs.len()
    &&& rs[i].state != State::Dead
    &&& sq_dist(rs[i], h) < CHASE_LIMIT
    &&& forall|j: int| 0 <= j < i && rs[j].state != State::Dead ==> sq_dist(#[trigger] rs[j], h) > sq_dist(rs[i], h)
    &&& forall|j: int| i < j < rs.len() && rs[j].state != State::Dead ==> sq_dist(#[trigger] rs[j], h) >= sq_dist(rs[i], h)
}

pub open spec fn on_grid_at(g: &Grid, x: usize, y: usize) -> bool {
    g.on_grid(x as int, y as int)
}

pub open spec fn runners_on_grid(g: &Grid, rs: Seq<Runner>) -> bool {
    forall|i: int| 0 <= i < rs.len() ==> on_grid_at(g, (#[trigger] rs[i]).x, rs[i].y)
}

proof fn lemma_target_unique(rs: Seq<Runner>, h: Hunter, i: int, k: int)
    requires
        is_target(rs, h, i),
        is_target(rs, h, k),
    ensures
        i == k,
{
    if i < k {
        assert(sq_dist(rs[i], h) > sq_dist(rs[k], h));
    } else if k < i {
        assert(sq_dist(rs[k], h) > sq_dist(rs[i], h));
    }
}

/// The squared distance of a runner from the hunter, both on the grid.
fn distance(r: Runner, h: Hunter, g: &Grid) -> (d: i64)
    requires
        g.wf(),
        on_grid_at(g, r.x, r.y),
        on_grid_at(g, h.x, h.y),
    ensures
        d == sq_dist(r, h),
{
    let dx = r.x as i64 - h.x as i64;
    let dy = r.y as i64 - h.y as i64;
    assert(dx * dx < 0x4000_0000_0000_0000) by (nonlinear_arith)
        requires -0x8000_0000 < dx < 0x8000_0000;
    assert(dy * dy < 0x4000_0000_0000_0000) by (nonlinear_arith)
        requires -0x8000_0000 < dy < 0x8000_0000;
    assert(dx * dx >= 0 && dy * dy >= 0) by (nonlinear_arith);
    dx * dx + dy * dy
}

/// The hunter moves towards the nearest live runner (the first of equals),
/// or stays put when none is within range.
pub fn hunter_tick(grid: &Grid, hunter: &mut Hunter, runners: &Vec<Runner>, rng: &mut RandState)
    requires
        grid.wf(),
        on_grid_at(grid, old(hunter).x, old(hunter).y),
        runners_on_grid(grid, runners@),
    ensures
        forall|i: int| is_target(runners@, *old(hunter), i) ==>
            moved(grid, old(hunter).x as int, old(hunter).y as int,
                (runners@[i].x - old(hunter).x) as i32, (runners@[i].y - old(hunter).y) as i32, old(rng).value)
            == (final(hunter).x as int, final(hunter).y as int, final(rng).value),
        !(exists|i: int| is_target(runners@, *old(hunter), i)) ==>
            moved(grid, old(hunter).x as int, old(hunter).y as int, 0, 0, old(rng).value)
            == (final(hunter).x as int, final(hunter).y as int, final(rng).value),
{
    let h = *hunter;
    let mut best: Option<usize> = None;
    let mut min_dist: i64 = CHASE_LIMIT;
    let mut i: usize = 0;
    while i < runners.len()
        invariant
            grid.wf(),
            h == *old(hunter),
            on_grid_at(grid, h.x, h.y),
            runners_on_grid(grid, runners@),
            i <= runners@.len(),
            match best {
                None => min_dist == CHASE_LIMIT && forall|j: int| 0 <= j < i && runners@[j].state != State::Dead
                    ==> sq_dist(#[trigger] runners@[j], h) >= CHASE_LIMIT,
                Some(b) => {
                    &&& b < i
                    &&& runners@[b as int].state != State::Dead
                    &&& min_dist == sq_dist(runners@[b as int], h)
                    &&& min_dist < CHASE_LIMIT
                    &&& forall|j: int| 0 <= j < b && runners@[j].state != State::Dead ==> sq_dist(#[trigger] runners@[j], h) > min_dist
                    &&& forall|j: int| b < j < i && runners@[j].state != State::Dead ==> sq_dist(#[trigger] runners@[j], h) >= min_dist
                },
            },
        decreases runners@.len() - i,
    {
        let r = runners[i];
        if r.state != State::Dead {
            let d = distance(r, h, grid);
            if d < min_dist {
                best = Some(i);
                min_dist = d;
            }
        }
        i = i + 1;
    }
    let (mx, my) = match best {
        Some(b) => {
            let r = runners[b];
            proof {
                assert(is_target(runners@, h, b as int));
                assert forall|k: int| is_target(runners@, h, k) implies k == b as int by {
                    lemma_target_unique(runners@, h, k, b as int);
                }
            }
            ((r.x as i64 - h.x as i64) as i32, (r.y as i64 - h.y as i64) as i32)
        },
        None => {
            proof {
                assert forall|k: int| !is_target(runners@, h, k) by {
                    if 0 <= k < runners@.len() && runners@[k].state != State::Dead {
                        assert(sq_dist(runners@[k], h) >= CHASE_LIMIT);
                    }
                }
            }
            (0i32, 0i32)
        },
    };
    let mut x = h.x;
    let mut y = h.y;
    move_by(grid, &mut x, &mut y, mx, my, rng);
    hunter.x = x;
    hunter.y = y;
}

proof fn lemma_step_bound(v: u32)
    ensures
        -1 <= step_of_draw(v) <= 1,
{
}

/// Where `moved` ends: at most one cell along each axis from the start, and
/// either the start itself or an open cell.
pub proof fn lemma_moved_bounds(grid: &Grid, x: int, y: int, mx: i32, my: i32, v: u32)
    ensures
        ({
            let (nx, ny, _) = moved(grid, x, y, mx, my, v);
            &&& x - 1 <= nx <= x + 1
            &&& y - 1 <= ny <= y + 1
            &&& (nx == x && ny == y) || open_cell(grid, nx, ny)
        }),
{
    lemma_step_bound(next_value(v));
    lemma_step_bound(next_value(next_value(v)));
}

/// The state a live runner takes at squared distance `d` from the hunter.
pub open spec fn mood(d: int) -> State {
    if d > SCARE_DIST * SCARE_DIST { State::Walking } else { State::Running }
}

/// The generator state after `k` draws from `v`.
pub open spec fn draws(v: u32, k: nat) -> u32
    decreases k,
{
    if k == 0 {
        v
    } else {
        next_value(draws(v, (k - 1) as nat))
    }
}

/// The step in 0..=2 that picks a fleeing runner's move from a raw draw.
pub open spec fn choice_of_draw(v: u32) -> int {
    let r = v as i32;
    let a: int = if r < 0 { -(r as int) } else { r as int };
    a % 3
}

/// One runner's reaction to the hunter with generator state `v`: the runner
/// after, and the generator state after.
pub open spec fn runner_step(grid: &Grid, r: Runner, h: Hunter, v: u32) -> (Runner, u32) {
    if r.state == State::Dead {
        (r, v)
    } else if r.x == h.x && r.y == h.y {
        (Runner { state: State::Dead, ..r }, v)
    } else {
        let dx = (r.x - h.x) as i32;
        let dy = (r.y - h.y) as i32;
        let v1 = next_value(v);
        let v2 = next_value(v1);
        let (state, mx, my, w) = if sq_dist(r, h) > SCARE_DIST * SCARE_DIST {
            (State::Walking, step_of_draw(v1), step_of_draw(v2), v2)
        } else if choice_of_draw(v1) == 0 {
            (State::Running, dx, step_of_draw(v2), v2)
        } else if choice_of_draw(v1) == 1 {
            (State::Running, step_of_draw(v2), dy, v2)
        } else {
            (State::Running, dx, dy, v1)
        };
        let (nx, ny, after) = moved(grid, r.x as int, r.y as int, mx, my, w);
        (Runner { x: nx as usize, y: ny as usize, state }, after)
    }
}

/// The generator state after the first `i` runners have reacted.
pub open spec fn state_after(grid: &Grid, rs: Seq<Runner>, h: Hunter, v: u32, i: int) -> u32
    decreases i,
{
    if i <= 0 {
        v
    } else {
        runner_step(grid, rs[i - 1], h, state_after(grid, rs, h, v, i - 1)).1
    }
}

/// Each live runner reacts to the hunter: caught when they share a cell,
/// otherwise it walks at random when the hunter is far and runs from it,
/// with some randomness, when it is near. It moves at most one cell along
/// each axis, and only into an open cell.
pub fn runner_tick(grid: &Grid, runners: &mut Vec<Runner>, hunter: Hunter, rng: &mut RandState)
    requires
        grid.wf(),
        on_grid_at(grid, hunter.x, hunter.y),
        runners_on_grid(grid, old(runners)@),
    ensures
        final(runners)@.len() == old(runners)@.len(),
        runners_on_grid(grid, final(runners)@),
        final(rng).value == state_after(grid, old(runners)@, hunter, old(rng).value, old(runners)@.len() as int),
        forall|i: int| 0 <= i < old(runners)@.len() ==> final(runners)@[i]
            == runner_step(grid, #[trigger] old(runners)@[i], hunter, state_after(grid, old(runners)@, hunter, old(rng).value, i)).0,
        forall|i: int| 0 <= i < old(runners)@.len() ==> {
            let r = #[trigger] old(runners)@[i];
            let n = final(runners)@[i];
            if r.state == State::Dead {
                n == r
            } else if r.x == hunter.x && r.y == hunter.y {
                n == (Runner { state: State::Dead, ..r })
            } else {
                &&& n.state == mood(sq_dist(r, hunter))
                &&& r.x - 1 <= n.x <= r.x + 1
                &&& r.y - 1 <= n.y <= r.y + 1
                &&& (n.x == r.x && n.y == r.y) || open_cell(grid, n.x as int, n.y as int)
            }
        },
{
    let mut i: usize = 0;
    while i < runners.len()
        invariant
            grid.wf(),
            on_grid_at(grid, hunter.x, hunter.y),
            runners_on_grid(grid, runners@),
            runners@.len() == old(runners)@.len(),
            i <= runners@.len(),
            forall|j: int| i <= j < runners@.len() ==> runners@[j] == old(runners)@[j],
            rng.value == state_after(grid, old(runners)@, hunter, old(rng).value, i as int),
            forall|j: int| 0 <= j < i ==> runners@[j]
                == runner_step(grid, #[trigger] old(runners)@[j], hunter, state_after(grid, old(runners)@, hunter, old(rng).value, j)).0,
            forall|j: int| 0 <= j < i ==> {
                let r = #[trigger] old(runners)@[j];
                let n = runners@[j];
                if r.state == State::Dead {
                    n == r
                } else if r.x == hunter.x && r.y == hunter.y {
                    n == (Runner { state: State::Dead, ..r })
                } else {
                    &&& n.state == mood(sq_dist(r, hunter))
                    &&& r.x - 1 <= n.x <= r.x + 1
                    &&& r.y - 1 <= n.y <= r.y + 1
                    &&& (n.x == r.x && n.y == r.y) || open_cell(grid, n.x as int, n.y as int)
                }
            },
        decreases runners@.len() - i,
    {
        let r = runners[i];
        let ghost v = rng.value;
        let n = react(grid, r, hunter, rng);
        proof {
            assert(r == old(runners)@[i as int]);
            assert(runner_step(grid, r, hunter, v) == (n, rng.value));
        }
        runners.set(i, n);
        i = i + 1;
    }
}

/// One runner's reaction to the hunter.
fn react(grid: &Grid, r: Runner, hunter: Hunter, rng: &mut RandState) -> (n: Runner)
    requires
        grid.wf(),
        on_grid_at(grid, hunter.x, hunter.y),
        on_grid_at(grid, r.x, r.y),
    ensures
        runner_step(grid, r, hunter, old(rng).value) == (n, final(rng).value),
        on_grid_at(grid, n.x, n.y),
        if r.state == State::Dead {
            n == r
        } else if r.x == hunter.x && r.y == hunter.y {
            n == (Runner { state: State::Dead, ..r })
        } else {
            &&& n.state == mood(sq_dist(r, hunter))
            &&& r.x - 1 <= n.x <= r.x + 1
            &&& r.y - 1 <= n.y <= r.y + 1
            &&& (n.x == r.x && n.y == r.y) || open_cell(grid, n.x as int, n.y as int)
        },
{
    if r.state == State::Dead {
        return r;
    }
    if r.x == hunter.x && r.y == hunter.y {
        return Runner { state: State::Dead, ..r };
    }
    let d = distance(r, hunter, grid);
    let dx = (r.x as i64 - hunter.x as i64) as i32;
    let dy = (r.y as i64 - hunter.y as i64) as i32;
    let (state, mx, my) = if d > SCARE_DIST * SCARE_DIST {
        let a = rand_step(rng);
        let b = rand_step(rng);
        (State::Walking, a, b)
    } else {
        let c = rand(rng) as i64;
        let choice = if c < 0 { -c % 3 } else { c % 3 };
        if choice == 0 {
            let b = rand_step(rng);
            (State::Running, dx, b)
        } else if choice == 1 {
            let a = rand_step(rng);
            (State::Running, a, dy)
        } else {
            (State::Running, dx, dy)
        }
    };
    let mut x = r.x;
    let mut y = r.y;
    let ghost v = rng.value;
    move_by(grid, &mut x, &mut y, mx, my, rng);
    proof {
        lemma_moved_bounds(grid, r.x as int, r.y as int, mx, my, v);
    }
    Runner { x, y, state }
}

/// The hunter's starting cell: the middle of the grid.
pub fn hunter_start(grid: &Grid) -> (h: Hunter)
    requires
        grid.wf(),
    ensures
        h.x == grid.width_spec() / 2,
        h.y == grid.height_spec() / 2,
        on_grid_at(grid, h.x, h.y),
{
    Hunter { x: (grid.width() / 2) as usize, y: (grid.height() / 2) as usize }
}

/// Puts every runner, walking, at a pseudo-random inner cell: `x` is one
/// plus a draw modulo `width - 2`, then `y` likewise.
pub fn scatter_runners(grid: &Grid, runners: &mut Vec<Runner>, rng: &mut RandState)
    requires
        grid.wf(),
        grid.width_spec() >= 3,
        grid.height_spec() >= 3,
    ensures
        final(runners)@.len() == old(runners)@.len(),
        runners_on_grid(grid, final(runners)@),
        final(rng).value == draws(old(rng).value, 2 * old(runners)@.len()),
        forall|i: int| 0 <= i < final(runners)@.len() ==> {
            let n = #[trigger] final(runners)@[i];
            &&& n.state == State::Walking
            &&& n.x == 1 + (draws(old(rng).value, (2 * i + 1) as nat) as int) % (grid.width_spec() - 2)
            &&& n.y == 1 + (draws(old(rng).value, (2 * i + 2) as nat) as int) % (grid.height_spec() - 2)
            &&& 1 <= n.x < grid.width_spec() - 1
            &&& 1 <= n.y < grid.height_spec() - 1
        },
{
    let w = (grid.width() - 2) as u32;
    let h = (grid.height() - 2) as u32;
    let mut i: usize = 0;
    while i < runners.len()
        invariant
            grid.wf(),
            w == grid.width_spec() - 2,
            h == grid.height_spec() - 2,
            w >= 1,
            h >= 1,
            runners@.len() == old(runners)@.len(),
            i <= runners@.len(),
            rng.value == draws(old(rng).value, 2 * i as nat),
            forall|j: int| 0 <= j < i ==> {
                let n = #[trigger] runners@[j];
                &&& n.state == State::Walking
                &&& n.x == 1 + (draws(old(rng).value, (2 * j + 1) as nat) as int) % (grid.width_spec() - 2)
                &&& n.y == 1 + (draws(old(rng).value, (2 * j + 2) as nat) as int) % (grid.height_spec() - 2)
                &&& 1 <= n.x < grid.width_spec() - 1
                &&& 1 <= n.y < grid.height_spec() - 1
            },
        decreases runners@.len() - i,
    {
        let x = 1 + (rand_usize(rng) % w) as usize;
        let y = 1 + (rand_usize(rng) % h) as usize;
        runners.set(i, Runner { x, y, state: State::Walking });
        proof {
            assert(draws(old(rng).value, (2 * i + 1) as nat) == next_value(draws(old(rng).value, 2 * i as nat)));
            assert(draws(old(rng).value, (2 * i + 2) as nat) == next_value(draws(old(rng).value, (2 * i + 1) as nat)));
        }
        i = i + 1;
    }
}

} // verus!
