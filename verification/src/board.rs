//! The game session: the board, its four moves and the placing of new tiles.

use vstd::prelude::*;
use crate::dice::random_below;
use crate::laws::{
    below, half, is_tile, lemma_slide_conserves, lemma_slide_keeps_tiles, lemma_small_line_fits, total,
};
use crate::line::{fits, line_view, slide, slide_line, tiles, SIZE};

verus! {

/// The edge that the tiles of a move slide to.
#[derive(Clone, Copy, Debug, PartialEq, Eq, Structural)]
pub enum Direction {
    Left,
    Right,
    Up,
    Down,
}

/// One game: the board, row by row, and whether the player asked to leave.
/// A cell holds 0 where it is empty, else the value of its tile.
#[derive(Clone, Copy, Debug)]
pub struct App {
    pub grid: [[u32; 4]; 4],
    pub exit: bool,
}

/// Row and column of cell `i` of line `k`, counted from the edge that
/// `dir` slides to. For `Left` and `Right` the lines are the rows, for
/// `Up` and `Down` the columns.
pub open spec fn place(dir: Direction, k: int, i: int) -> (int, int) {
    match dir {
        Direction::Left => (k, i),
        Direction::Right => (k, 3 - i),
        Direction::Up => (i, k),
        Direction::Down => (3 - i, k),
    }
}

/// The line of `dir` that the cell at row `r` and column `c` lies on.
pub open spec fn line_of(dir: Direction, r: int, c: int) -> int {
    match dir {
        Direction::Left | Direction::Right => r,
        Direction::Up | Direction::Down => c,
    }
}

/// How far the cell at row `r` and column `c` lies from the edge of `dir`.
pub open spec fn rank_of(dir: Direction, r: int, c: int) -> int {
    match dir {
        Direction::Left => c,
        Direction::Right => 3 - c,
        Direction::Up => r,
        Direction::Down => 3 - r,
    }
}

/// Row and column of cell `i` of line `k` of `dir`.
fn place_at(dir: Direction, k: usize, i: usize) -> (p: (usize, usize))
    requires
        k < 4,
        i < 4,
    ensures
        p.0 < 4,
        p.1 < 4,
        (p.0 as int, p.1 as int) == place(dir, k as int, i as int),
{
    match dir {
        Direction::Left => (k, i),
        Direction::Right => (k, 3 - i),
        Direction::Up => (i, k),
        Direction::Down => (3 - i, k),
    }
}

/// The value of a new tile for a draw from `0..10`: 4 for one draw in
/// ten, else 2.
pub open spec fn tile_for(roll: usize) -> u32 {
    if roll == 4 {
        4
    } else {
        2
    }
}

impl Default for App {
    /// An empty board, with no wish to leave.
    fn default() -> (app: App)
        ensures
            !app.exit,
            app.is_blank(),
    {
        App { grid: [[0u32; 4]; 4], exit: false }
    }
}

impl App {
    /// The value in row `r`, column `c`.
    pub open spec fn cell(&self, r: int, c: int) -> int {
        self.grid[r][c] as int
    }

    /// Line `k` of the board as a move towards `dir` reads it: from the
    /// edge that the tiles slide to.
    pub open spec fn towards(&self, dir: Direction, k: int) -> Seq<int> {
        Seq::new(4, |i: int| self.cell(place(dir, k, i).0, place(dir, k, i).1))
    }

    /// A move towards `dir` makes no tile that is too large for a cell.
    pub open spec fn can_move(&self, dir: Direction) -> bool {
        forall|k: int| 0 <= k < 4 ==> fits(slide(#[trigger] self.towards(dir, k)))
    }

    /// `self` is what a move towards `dir` makes of `before`: each line of
    /// `dir` is the slide of that line, and the exit flag is kept.
    pub open spec fn is_move_of(&self, before: App, dir: Direction) -> bool {
        &&& self.exit == before.exit
        &&& forall|k: int|
            0 <= k < 4 ==> #[trigger] self.towards(dir, k) == slide(before.towards(dir, k))
    }

    /// The board after a move towards `dir`, or `None` where the move
    /// would make a tile too large for a cell.
    pub fn slid(&self, dir: Direction) -> (res: Option<App>)
        ensures
            res is Some <==> self.can_move(dir),
            res matches Some(next) ==> next.is_move_of(*self, dir),
    {
        let mut next = App { grid: self.grid, exit: self.exit };
        let mut k: usize = 0;
        while k < SIZE
            invariant
                k <= 4,
                next.exit == self.exit,
                forall|j: int| 0 <= j < k ==> fits(slide(#[trigger] self.towards(dir, j))),
                forall|r: int, c: int|
                    0 <= r < 4 && 0 <= c < 4 ==> #[trigger] next.cell(r, c) == if line_of(
                        dir,
                        r,
                        c,
                    ) < k {
                        slide(self.towards(dir, line_of(dir, r, c)))[rank_of(dir, r, c)]
                    } else {
                        self.cell(r, c)
                    },
            decreases 4 - k,
        {
            let at0 = place_at(dir, k, 0);
            let at1 = place_at(dir, k, 1);
            let at2 = place_at(dir, k, 2);
            let at3 = place_at(dir, k, 3);
            let line: [u32; 4] = [
                self.grid[at0.0][at0.1],
                self.grid[at1.0][at1.1],
                self.grid[at2.0][at2.1],
                self.grid[at3.0][at3.1],
            ];
            proof {
                assert(line_view(line) =~= self.towards(dir, k as int));
            }
            match slide_line(line) {
                None => {
                    return None;
                },
                Some(out) => {
                    let ghost prev = next;
                    next.grid[at0.0][at0.1] = out[0];
                    next.grid[at1.0][at1.1] = out[1];
                    next.grid[at2.0][at2.1] = out[2];
                    next.grid[at3.0][at3.1] = out[3];
                    proof {
                        let made = slide(self.towards(dir, k as int));
                        assert(forall|i: int| 0 <= i < 4 ==> line_view(out)[i] == out[i] as int);
                        assert forall|r: int, c: int| 0 <= r < 4 && 0 <= c < 4 implies
                            #[trigger] next.cell(r, c) == if line_of(dir, r, c) == k {
                                made[rank_of(dir, r, c)]
                            } else {
                                prev.cell(r, c)
                            } by {
                            assert(next.grid[r][c] == if (r, c) == (at3.0 as int, at3.1 as int) {
                                out[3]
                            } else if (r, c) == (at2.0 as int, at2.1 as int) {
                                out[2]
                            } else if (r, c) == (at1.0 as int, at1.1 as int) {
                                out[1]
                            } else if (r, c) == (at0.0 as int, at0.1 as int) {
                                out[0]
                            } else {
                                prev.grid[r][c]
                            });
                        }
                    }
                },
            }
            k += 1;
        }
        proof {
            assert forall|j: int| 0 <= j < 4 implies #[trigger] next.towards(dir, j) == slide(
                self.towards(dir, j),
            ) by {
                assert(next.towards(dir, j) =~= slide(self.towards(dir, j)));
            }
        }
        Some(next)
    }

    /// Every cell is empty or holds a power of two from 2 on.
    pub open spec fn tiles_valid(&self) -> bool {
        forall|r: int, c: int|
            0 <= r < 4 && 0 <= c < 4 ==> #[trigger] self.cell(r, c) == 0 || is_tile(
                self.cell(r, c),
            )
    }

    /// The two boards hold the same value in every cell.
    pub open spec fn same_cells(&self, other: App) -> bool {
        forall|r: int, c: int|
            0 <= r < 4 && 0 <= c < 4 ==> #[trigger] self.cell(r, c) == other.cell(r, c)
    }

    /// The value in row `r`, column `c`, for whoever shows the board.
    pub fn value(&self, r: usize, c: usize) -> (v: u32)
        requires
            r < 4,
            c < 4,
        ensures
            v == self.cell(r as int, c as int),
    {
        self.grid[r][c]
    }

    /// Whether the player asked to leave.
    pub fn exit_requested(&self) -> (b: bool)
        ensures
            b == self.exit,
    {
        self.exit
    }

    /// Whether some cell of `other` differs from the same cell here.
    pub fn differs(&self, other: &App) -> (b: bool)
        ensures
            b == !self.same_cells(*other),
    {
        let mut r: usize = 0;
        while r < SIZE
            invariant
                r <= 4,
                forall|i: int, c: int|
                    0 <= i < r && 0 <= c < 4 ==> #[trigger] self.cell(i, c) == other.cell(i, c),
            decreases 4 - r,
        {
            let mut c: usize = 0;
            while c < SIZE
                invariant
                    r < 4,
                    c <= 4,
                    forall|i: int, c: int|
                        0 <= i < r && 0 <= c < 4 ==> #[trigger] self.cell(i, c) == other.cell(
                            i,
                            c,
                        ),
                    forall|j: int|
                        0 <= j < c ==> #[trigger] self.cell(r as int, j) == other.cell(
                            r as int,
                            j,
                        ),
                decreases 4 - c,
            {
                if self.grid[r][c] != other.grid[r][c] {
                    assert(self.cell(r as int, c as int) != other.cell(r as int, c as int));
                    return true;
                }
                c += 1;
            }
            r += 1;
        }
        false
    }

    /// Whether a move towards `dir` can be stored: `make_move` and the
    /// four moves ask for this.
    pub fn movable(&self, dir: Direction) -> (b: bool)
        ensures
            b == self.can_move(dir),
    {
        self.slid(dir).is_some()
    }

    /// Moves the tiles towards `dir`: in each line they slide to that
    /// edge, equal neighbours merge once, counted from the edge, and the
    /// gaps close. Says whether any cell changed.
    pub fn make_move(&mut self, dir: Direction) -> (changed: bool)
        requires
            old(self).can_move(dir),
        ensures
            final(self).is_move_of(*old(self), dir),
            changed == !final(self).same_cells(*old(self)),
            old(self).tiles_valid() ==> final(self).tiles_valid(),
            final(self).sum() == old(self).sum(),
            final(self).tile_count() <= old(self).tile_count(),
    {
        let before = *self;
        match self.slid(dir) {
            Some(next) => {
                *self = next;
            },
            None => {},
        }
        proof {
            if before.tiles_valid() {
                before.lemma_move_keeps_tiles(*self, dir);
            }
            before.lemma_move_conserves(*self, dir);
        }
        self.differs(&before)
    }

    /// Slides and merges every row towards column 0.
    pub fn move_left(&mut self)
        requires
            old(self).can_move(Direction::Left),
        ensures
            final(self).is_move_of(*old(self), Direction::Left),
            old(self).tiles_valid() ==> final(self).tiles_valid(),
            final(self).sum() == old(self).sum(),
            final(self).tile_count() <= old(self).tile_count(),
    {
        self.make_move(Direction::Left);
    }

    /// Slides and merges every row towards column 3.
    pub fn move_right(&mut self)
        requires
            old(self).can_move(Direction::Right),
        ensures
            final(self).is_move_of(*old(self), Direction::Right),
            old(self).tiles_valid() ==> final(self).tiles_valid(),
            final(self).sum() == old(self).sum(),
            final(self).tile_count() <= old(self).tile_count(),
    {
        self.make_move(Direction::Right);
    }

    /// Slides and merges every column towards row 0.
    pub fn move_up(&mut self)
        requires
            old(self).can_move(Direction::Up),
        ensures
            final(self).is_move_of(*old(self), Direction::Up),
            old(self).tiles_valid() ==> final(self).tiles_valid(),
            final(self).sum() == old(self).sum(),
            final(self).tile_count() <= old(self).tile_count(),
    {
        self.make_move(Direction::Up);
    }

    /// Slides and merges every column towards row 3.
    pub fn move_down(&mut self)
        requires
            old(self).can_move(Direction::Down),
        ensures
            final(self).is_move_of(*old(self), Direction::Down),
            old(self).tiles_valid() ==> final(self).tiles_valid(),
            final(self).sum() == old(self).sum(),
            final(self).tile_count() <= old(self).tile_count(),
    {
        self.make_move(Direction::Down);
    }

    /// A move never makes a value that is no power of two: where every
    /// cell of the board was empty or a power of two from 2 on, every cell
    /// of the board after a move is.
    pub proof fn lemma_move_keeps_tiles(self, after: App, dir: Direction)
        requires
            self.tiles_valid(),
            after.is_move_of(self, dir),
        ensures
            after.tiles_valid(),
    {
        assert forall|r: int, c: int| 0 <= r < 4 && 0 <= c < 4 implies #[trigger] after.cell(r, c)
            == 0 || is_tile(after.cell(r, c)) by {
            let k = line_of(dir, r, c);
            let i = rank_of(dir, r, c);
            let line = self.towards(dir, k);
            assert forall|j: int| 0 <= j < 4 implies #[trigger] line[j] == 0 || is_tile(
                line[j],
            ) by {
                assert(line[j] == self.cell(place(dir, k, j).0, place(dir, k, j).1));
            }
            lemma_slide_keeps_tiles(line);
            assert(after.towards(dir, k) == slide(line));
            assert(after.towards(dir, k)[i] == after.cell(r, c));
        }
    }

    /// The empty cells among the first `n` cells of the board, row by
    /// row, as row and column, in that order.
    pub open spec fn empties_upto(&self, n: nat) -> Seq<(usize, usize)>
        decreases n,
    {
        if n == 0 {
            Seq::empty()
        } else {
            let m = n - 1;
            let found = self.empties_upto(m as nat);
            if self.cell(m / 4, m % 4) == 0 {
                found.push(((m / 4) as usize, (m % 4) as usize))
            } else {
                found
            }
        }
    }

    /// The empty cells of the board, row by row.
    pub open spec fn empties(&self) -> Seq<(usize, usize)> {
        self.empties_upto(16)
    }

    /// No cell is empty.
    pub open spec fn is_full(&self) -> bool {
        self.empties().len() == 0
    }

    /// The number of tiles among the first `n` cells of the board, row by row.
    pub open spec fn tiles_upto(&self, n: nat) -> nat
        decreases n,
    {
        if n == 0 {
            0
        } else {
            let m = n - 1;
            let seen = self.tiles_upto(m as nat);
            if self.cell(m / 4, m % 4) == 0 {
                seen
            } else {
                seen + 1
            }
        }
    }

    /// The number of tiles on the board.
    pub open spec fn tile_count(&self) -> nat {
        self.tiles_upto(16)
    }

    /// `self` is `before` with the value `v` in the cell at row `r`,
    /// column `c`, and nothing else changed.
    pub open spec fn is_placed(&self, before: App, r: int, c: int, v: int) -> bool {
        &&& self.exit == before.exit
        &&& forall|i: int, j: int|
            0 <= i < 4 && 0 <= j < 4 ==> #[trigger] self.cell(i, j) == if i == r && j == c {
                v
            } else {
                before.cell(i, j)
            }
    }

    /// `self` is what placing a new tile makes of `before`: where `before`
    /// is full, `before` itself; else `before` with a 2 or a 4 in one cell
    /// that was empty.
    pub open spec fn is_spawn_of(&self, before: App) -> bool {
        if before.is_full() {
            *self == before
        } else {
            exists|pick: int, v: int|
                0 <= pick < before.empties().len() && (v == 2 || v == 4) && #[trigger] self.is_placed(
                    before,
                    before.empties()[pick].0 as int,
                    before.empties()[pick].1 as int,
                    v,
                )
        }
    }

    /// The cells listed as empty lie on the board and are empty, and each
    /// of the first `n` cells is listed or counted as a tile.
    pub proof fn lemma_empties(self, n: nat)
        requires
            n <= 16,
        ensures
            self.empties_upto(n).len() + self.tiles_upto(n) == n,
            forall|i: int|
                0 <= i < self.empties_upto(n).len() ==> {
                    let p = #[trigger] self.empties_upto(n)[i];
                    p.0 < 4 && p.1 < 4 && 4 * p.0 + p.1 < n && self.cell(p.0 as int, p.1 as int)
                        == 0
                },
        decreases n,
    {
        if n > 0 {
            self.lemma_empties((n - 1) as nat);
        }
    }

    /// A tile put into an empty cell is one tile more among the cells
    /// counted, where that cell is among them.
    proof fn lemma_placed_count(self, after: App, r: int, c: int, v: int, n: nat)
        requires
            0 <= r < 4,
            0 <= c < 4,
            n <= 16,
            self.cell(r, c) == 0,
            v != 0,
            after.is_placed(self, r, c, v),
        ensures
            after.tiles_upto(n) == self.tiles_upto(n) + if 4 * r + c < n {
                1nat
            } else {
                0nat
            },
        decreases n,
    {
        if n > 0 {
            self.lemma_placed_count(after, r, c, v, (n - 1) as nat);
            let m = n - 1;
            assert(after.cell(m / 4, m % 4) == if m / 4 == r && m % 4 == c {
                v
            } else {
                self.cell(m / 4, m % 4)
            });
        }
    }

    /// No cell holds a tile.
    pub open spec fn is_blank(&self) -> bool {
        forall|r: int, c: int| 0 <= r < 4 && 0 <= c < 4 ==> #[trigger] self.cell(r, c) == 0
    }

    /// A board without tiles counts none.
    proof fn lemma_blank_count(self, n: nat)
        requires
            self.is_blank(),
            n <= 16,
        ensures
            self.tiles_upto(n) == 0,
        decreases n,
    {
        if n > 0 {
            self.lemma_blank_count((n - 1) as nat);
            assert(self.cell((n - 1) / 4, (n - 1) % 4) == 0);
        }
    }

    /// A new game: a board without tiles on which one tile is placed at
    /// random, as `spawn` does.
    pub fn start() -> (app: App)
        ensures
            !app.exit,
            app.tile_count() == 1,
            app.tiles_valid(),
            exists|blank: App| #[trigger] blank.is_blank() && !blank.exit && app.is_spawn_of(blank),
    {
        let mut app = App::default();
        let ghost blank = app;
        proof {
            blank.lemma_blank_count(16);
            blank.lemma_empties(16);
        }
        app.spawn();
        proof {
            assert(blank.is_blank() && !blank.exit && app.is_spawn_of(blank));
        }
        app
    }

    /// The empty cells, row by row, as row and column.
    pub fn empty_cells(&self) -> (found: Vec<(usize, usize)>)
        ensures
            found@ == self.empties(),
    {
        let mut found: Vec<(usize, usize)> = Vec::new();
        let mut y: usize = 0;
        while y < SIZE
            invariant
                y <= 4,
                found@ == self.empties_upto((4 * y) as nat),
            decreases 4 - y,
        {
            let mut x: usize = 0;
            while x < SIZE
                invariant
                    y < 4,
                    x <= 4,
                    found@ == self.empties_upto((4 * y + x) as nat),
                decreases 4 - x,
            {
                if self.grid[y][x] == 0 {
                    found.push((y, x));
                }
                x += 1;
            }
            y += 1;
        }
        found
    }

    /// Places a new tile as two draws say: `pick` chooses among the empty
    /// cells, counted row by row, and `roll`, a draw from `0..10`, chooses
    /// the value. On a full board nothing is done and the answer is `false`.
    pub fn spawn_with(&mut self, pick: usize, roll: usize) -> (placed: bool)
        requires
            old(self).is_full() || pick < old(self).empties().len(),
        ensures
            placed == !old(self).is_full(),
            !placed ==> *final(self) == *old(self),
            placed ==> old(self).cell(
                old(self).empties()[pick as int].0 as int,
                old(self).empties()[pick as int].1 as int,
            ) == 0,
            placed ==> final(self).is_placed(
                *old(self),
                old(self).empties()[pick as int].0 as int,
                old(self).empties()[pick as int].1 as int,
                tile_for(roll) as int,
            ),
            placed ==> final(self).tile_count() == old(self).tile_count() + 1,
            final(self).is_spawn_of(*old(self)),
            old(self).tiles_valid() ==> final(self).tiles_valid(),
    {
        let found = self.empty_cells();
        if found.len() == 0 {
            return false;
        }
        let (r, c) = found[pick];
        let num: u32 = if roll == 4 { 4 } else { 2 };
        let ghost before = *self;
        proof {
            before.lemma_empties(16);
        }
        self.grid[r][c] = num;
        proof {
            assert(self.is_placed(before, r as int, c as int, num as int));
            before.lemma_placed_count(*self, r as int, c as int, num as int, 16);
            assert(is_tile(2)) by {
                reveal_with_fuel(crate::laws::is_power_of_two, 3);
            }
            assert(is_tile(4)) by {
                reveal_with_fuel(crate::laws::is_power_of_two, 4);
            }
        }
        true
    }

    /// Places a new tile in an empty cell chosen at random, each with the
    /// same chance: a 4 for one draw in ten, else a 2. On a full board
    /// nothing is done and the answer is `false`.
    pub fn spawn(&mut self) -> (placed: bool)
        ensures
            placed == !old(self).is_full(),
            !placed ==> *final(self) == *old(self),
            final(self).is_spawn_of(*old(self)),
            placed ==> final(self).tile_count() == old(self).tile_count() + 1,
            old(self).tiles_valid() ==> final(self).tiles_valid(),
    {
        let free = self.empty_cells().len();
        if free == 0 {
            return false;
        }
        let pick = random_below(free);
        let roll = random_below(10);
        self.spawn_with(pick, roll)
    }

    /// The sum of the values of all tiles: the sums of the four rows.
    pub open spec fn sum(&self) -> int {
        total(self.towards(Direction::Left, 0)) + total(self.towards(Direction::Left, 1)) + total(
            self.towards(Direction::Left, 2),
        ) + total(self.towards(Direction::Left, 3))
    }

    /// The sum of the values in line `k` of `dir`, cell by cell.
    pub open spec fn line_sum(&self, dir: Direction, k: int) -> int {
        self.cell(place(dir, k, 0).0, place(dir, k, 0).1) + self.cell(
            place(dir, k, 1).0,
            place(dir, k, 1).1,
        ) + self.cell(place(dir, k, 2).0, place(dir, k, 2).1) + self.cell(
            place(dir, k, 3).0,
            place(dir, k, 3).1,
        )
    }

    /// The number of tiles in line `k` of `dir`, cell by cell.
    pub open spec fn line_tiles(&self, dir: Direction, k: int) -> nat {
        taken(self.cell(place(dir, k, 0).0, place(dir, k, 0).1)) + taken(
            self.cell(place(dir, k, 1).0, place(dir, k, 1).1),
        ) + taken(self.cell(place(dir, k, 2).0, place(dir, k, 2).1)) + taken(
            self.cell(place(dir, k, 3).0, place(dir, k, 3).1),
        )
    }

    /// The tiles among the first cells, taken one row more.
    proof fn lemma_count_row(self, r: nat)
        requires
            r < 4,
        ensures
            self.tiles_upto(4 * r + 4) == self.tiles_upto(4 * r) + self.line_tiles(
                Direction::Left,
                r as int,
            ),
    {
        reveal_with_fuel(App::tiles_upto, 5);
    }

    /// The number of tiles is that of the four rows together.
    proof fn lemma_count_rows(self)
        ensures
            self.tile_count() == self.line_tiles(Direction::Left, 0) + self.line_tiles(
                Direction::Left,
                1,
            ) + self.line_tiles(Direction::Left, 2) + self.line_tiles(Direction::Left, 3),
    {
        self.lemma_count_row(0);
        self.lemma_count_row(1);
        self.lemma_count_row(2);
        self.lemma_count_row(3);
        assert(self.tiles_upto(0) == 0);
    }

    /// The sum of line `k` of `dir` by row and column of its cells.
    proof fn lemma_line_cells(self, dir: Direction, k: int)
        ensures
            self.line_sum(dir, k) == match dir {
                Direction::Left | Direction::Right => self.cell(k, 0) + self.cell(k, 1)
                    + self.cell(k, 2) + self.cell(k, 3),
                Direction::Up | Direction::Down => self.cell(0, k) + self.cell(1, k) + self.cell(
                    2,
                    k,
                ) + self.cell(3, k),
            },
            self.line_tiles(dir, k) == match dir {
                Direction::Left | Direction::Right => taken(self.cell(k, 0)) + taken(
                    self.cell(k, 1),
                ) + taken(self.cell(k, 2)) + taken(self.cell(k, 3)),
                Direction::Up | Direction::Down => taken(self.cell(0, k)) + taken(
                    self.cell(1, k),
                ) + taken(self.cell(2, k)) + taken(self.cell(3, k)),
            },
    {
    }

    /// The lines of any direction hold the same cells as the rows.
    proof fn lemma_regroup(self, dir: Direction)
        ensures
            self.line_sum(dir, 0) + self.line_sum(dir, 1) + self.line_sum(dir, 2) + self.line_sum(
                dir,
                3,
            ) == self.line_sum(Direction::Left, 0) + self.line_sum(Direction::Left, 1)
                + self.line_sum(Direction::Left, 2) + self.line_sum(Direction::Left, 3),
            self.line_tiles(dir, 0) + self.line_tiles(dir, 1) + self.line_tiles(dir, 2)
                + self.line_tiles(dir, 3) == self.line_tiles(Direction::Left, 0) + self.line_tiles(
                Direction::Left,
                1,
            ) + self.line_tiles(Direction::Left, 2) + self.line_tiles(Direction::Left, 3),
    {
        self.lemma_line_cells(dir, 0);
        self.lemma_line_cells(dir, 1);
        self.lemma_line_cells(dir, 2);
        self.lemma_line_cells(dir, 3);
        self.lemma_line_cells(Direction::Left, 0);
        self.lemma_line_cells(Direction::Left, 1);
        self.lemma_line_cells(Direction::Left, 2);
        self.lemma_line_cells(Direction::Left, 3);
    }

    /// The sum and the number of tiles of one line, cell by cell.
    proof fn lemma_line(self, dir: Direction, k: int)
        ensures
            total(self.towards(dir, k)) == self.line_sum(dir, k),
            tiles(self.towards(dir, k)).len() == self.line_tiles(dir, k),
    {
        let line = self.towards(dir, k);
        reveal_with_fuel(total, 5);
        reveal_with_fuel(tiles, 5);
        assert(line.drop_last().drop_last().drop_last().drop_last().len() == 0);
    }

    /// The sum and the number of the tiles can be taken line by line,
    /// along the lines of any direction.
    proof fn lemma_by_lines(self, dir: Direction)
        ensures
            self.sum() == total(self.towards(dir, 0)) + total(self.towards(dir, 1)) + total(
                self.towards(dir, 2),
            ) + total(self.towards(dir, 3)),
            self.tile_count() == tiles(self.towards(dir, 0)).len() + tiles(
                self.towards(dir, 1),
            ).len() + tiles(self.towards(dir, 2)).len() + tiles(self.towards(dir, 3)).len(),
    {
        self.lemma_line(Direction::Left, 0);
        self.lemma_line(Direction::Left, 1);
        self.lemma_line(Direction::Left, 2);
        self.lemma_line(Direction::Left, 3);
        self.lemma_count_rows();
        self.lemma_regroup(dir);
        self.lemma_line(dir, 0);
        self.lemma_line(dir, 1);
        self.lemma_line(dir, 2);
        self.lemma_line(dir, 3);
    }

    /// Every move can be made on a board whose values are at most half of
    /// the largest value of a cell.
    pub proof fn lemma_small_tiles_can_move(self, dir: Direction)
        requires
            forall|r: int, c: int|
                0 <= r < 4 && 0 <= c < 4 ==> #[trigger] self.cell(r, c) <= half(),
        ensures
            self.can_move(dir),
    {
        assert forall|k: int| 0 <= k < 4 implies fits(slide(#[trigger] self.towards(dir, k))) by {
            let line = self.towards(dir, k);
            assert forall|i: int| 0 <= i < line.len() implies #[trigger] line[i] <= half() by {
                assert(line[i] == self.cell(place(dir, k, i).0, place(dir, k, i).1));
            }
            assert(below(line, half()));
            lemma_small_line_fits(line);
        }
    }

    /// A move conserves the tiles but for its merges: the sum of all
    /// values stays as it was, and the number of tiles does not grow.
    pub proof fn lemma_move_conserves(self, after: App, dir: Direction)
        requires
            after.is_move_of(self, dir),
        ensures
            after.sum() == self.sum(),
            after.tile_count() <= self.tile_count(),
    {
        self.lemma_by_lines(dir);
        after.lemma_by_lines(dir);
        lemma_slide_conserves(self.towards(dir, 0));
        lemma_slide_conserves(self.towards(dir, 1));
        lemma_slide_conserves(self.towards(dir, 2));
        lemma_slide_conserves(self.towards(dir, 3));
        assert(after.towards(dir, 0) == slide(self.towards(dir, 0)));
        assert(after.towards(dir, 1) == slide(self.towards(dir, 1)));
        assert(after.towards(dir, 2) == slide(self.towards(dir, 2)));
        assert(after.towards(dir, 3) == slide(self.towards(dir, 3)));
    }
}

/// 1 for a cell that holds a tile, 0 for an empty one.
pub open spec fn taken(v: int) -> nat {
    if v == 0 {
        0
    } else {
        1
    }
}

} // verus!
