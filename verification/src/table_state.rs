//! The executable board.

use vstd::prelude::*;
use crate::rules::{
    captures, captures_any, cells, cells_ahead, in_line, is_player, is_step, legal, legal_for,
    legal_moves, lemma_legal_moves, lemma_placed_valid, line_closed, on_board, placed, step,
    terminal, turned, valid_grid, Grid, BLACK, EMPTY, WHITE,
};

verus! {

/// A position: the grid and the two sides. `bot` is the side that the
/// search plays for, `player` the side it plays against.
#[derive(Eq, PartialEq, Debug)]
pub struct Table {
    state: Vec<Vec<i32>>,
    bot: i32,
    player: i32,
}

/// The rows of `state` as a grid.
pub open spec fn grid_of(state: Vec<Vec<i32>>) -> Grid {
    Seq::new(state@.len(), |r: int| state@[r]@)
}

/// The grid of the position at the start of a game.
pub open spec fn opening_grid() -> Grid {
    Seq::new(
        8,
        |r: int|
            Seq::new(
                8,
                |c: int|
                    if (r == 3 && c == 3) || (r == 4 && c == 4) {
                        BLACK
                    } else if (r == 3 && c == 4) || (r == 4 && c == 3) {
                        WHITE
                    } else {
                        EMPTY
                    },
            ),
    )
}

/// One step of the walk, in the order of [`step`].
pub(crate) fn step_at(d: usize) -> (s: (i32, i32))
    requires
        d < 8,
    ensures
        s.0 == step(d as int).0,
        s.1 == step(d as int).1,
        is_step(s.0 as int, s.1 as int),
{
    if d == 0 {
        (1, 0)
    } else if d == 1 {
        (-1, 0)
    } else if d == 2 {
        (0, 1)
    } else if d == 3 {
        (0, -1)
    } else if d == 4 {
        (1, 1)
    } else if d == 5 {
        (-1, -1)
    } else if d == 6 {
        (1, -1)
    } else {
        (-1, 1)
    }
}

/// The rows have the shape of a board.
spec fn board_shaped(state: Vec<Vec<i32>>) -> bool {
    state@.len() == 8 && forall|r: int| 0 <= r < 8 ==> (#[trigger] state@[r])@.len() == 8
}

/// `(x, y)` is among the first `n` cells of `cells`.
spec fn listed(cells: Seq<(usize, usize)>, n: int, x: int, y: int) -> bool {
    exists|j: int| 0 <= j < n && (#[trigger] cells[j]).0 == x && cells[j].1 == y
}

/// Some of the first `d` directions brackets a disk.
spec fn captures_within(g: Grid, r: int, c: int, who: int, d: int) -> bool {
    exists|e: int| 0 <= e < d && #[trigger] captures(g, r, c, step(e).0, step(e).1, who)
}

/// The move turns `(x, y)` in one of the first `d` directions.
spec fn turned_within(g: Grid, r: int, c: int, who: int, x: int, y: int, d: int) -> bool {
    exists|e: int|
        0 <= e < d && captures(g, r, c, step(e).0, step(e).1, who) && #[trigger] in_line(
            g,
            r + step(e).0,
            c + step(e).1,
            step(e).0,
            step(e).1,
            who,
            x,
            y,
        )
}

/// The value of `(x, y)` once the first `d` directions of the move have
/// been carried out.
spec fn placed_within(g: Grid, r: int, c: int, who: i32, d: int, x: int, y: int) -> i32 {
    if (x == r && y == c && captures_within(g, r, c, who as int, d)) || turned_within(
        g,
        r,
        c,
        who as int,
        x,
        y,
        d,
    ) {
        who
    } else {
        g[x][y]
    }
}

/// Writes `v` to the cell `(x, y)` of `state`.
fn put(state: &mut Vec<Vec<i32>>, x: usize, y: usize, v: i32)
    requires
        board_shaped(*old(state)),
        x < 8,
        y < 8,
    ensures
        board_shaped(*final(state)),
        forall|p: int, q: int|
            0 <= p < 8 && 0 <= q < 8 ==> #[trigger] final(state)@[p]@[q] == (if p == x && q == y {
                v
            } else {
                old(state)@[p]@[q]
            }),
{
    state[x][y] = v;
}

impl Table {
    /// The value of a cell that holds no disk.
    pub const EMPTY: i32 = 0;

    /// The grid of this position.
    pub closed spec fn grid(&self) -> Grid {
        grid_of(self.state)
    }

    /// The side that the search plays for.
    pub closed spec fn spec_bot(&self) -> i32 {
        self.bot
    }

    /// The side that the search plays against.
    pub closed spec fn spec_player(&self) -> i32 {
        self.player
    }

    /// Every position is well formed: a valid grid, and two sides that are
    /// each other's opponent.
    #[verifier::type_invariant]
    pub open spec fn wf(&self) -> bool {
        &&& valid_grid(self.grid())
        &&& is_player(self.spec_player() as int)
        &&& self.spec_bot() == -self.spec_player()
    }

    /// What the type invariant says of the rows as they are stored.
    proof fn lemma_rows(&self)
        requires
            self.wf(),
        ensures
            self.state@.len() == 8,
            forall|r: int| 0 <= r < 8 ==> (#[trigger] self.state@[r])@.len() == 8,
            forall|r: int| 0 <= r < 8 ==> (#[trigger] self.state@[r])@ == self.grid()[r],
    {
        assert forall|r: int| 0 <= r < 8 implies (#[trigger] self.state@[r])@.len() == 8 && (
        self.state@[r])@ == self.grid()[r] by {
            assert(self.grid()[r] == self.state@[r]@);
        }
    }

    /// The side that the search plays for.
    #[verifier::when_used_as_spec(spec_bot)]
    pub fn bot(&self) -> (who: i32)
        ensures
            who == self.spec_bot(),
    {
        self.bot
    }

    /// The side that the search plays against.
    #[verifier::when_used_as_spec(spec_player)]
    pub fn player(&self) -> (who: i32)
        ensures
            who == self.spec_player(),
    {
        self.player
    }

    /// The position at the start of a game; the bot plays white.
    pub fn new() -> (table: Self)
        ensures
            table.grid() == opening_grid(),
            table.bot() == WHITE,
            table.player() == BLACK,
    {
        let mut table: Vec<Vec<i32>> = Vec::new();
        let mut r: usize = 0;
        while r < 8
            invariant
                r <= 8,
                table@.len() == r,
                forall|i: int| 0 <= i < r ==> (#[trigger] table@[i])@ == opening_grid()[i],
            decreases 8 - r,
        {
            let row: Vec<i32> = if r == 3 {
                vec![0, 0, 0, BLACK, WHITE, 0, 0, 0]
            } else if r == 4 {
                vec![0, 0, 0, WHITE, BLACK, 0, 0, 0]
            } else {
                vec![0, 0, 0, 0, 0, 0, 0, 0]
            };
            assert(row@ =~= opening_grid()[r as int]);
            table.push(row);
            r += 1;
        }
        assert(grid_of(table) =~= opening_grid());
        Table { state: table, bot: WHITE, player: BLACK }
    }

    /// The position with the given rows and sides.
    pub fn from_arguments(state: Vec<Vec<i32>>, player: i32, bot: i32) -> (table: Self)
        requires
            valid_grid(grid_of(state)),
            is_player(player as int),
            bot == -player,
        ensures
            table.grid() == grid_of(state),
            table.player() == player,
            table.bot() == bot,
    {
        Table { state, bot, player }
    }

    /// The value of the cell `(row, column)`.
    pub fn cell(&self, row: usize, column: usize) -> (v: i32)
        requires
            row < 8,
            column < 8,
        ensures
            v == self.grid()[row as int][column as int],
            v == EMPTY || v == BLACK || v == WHITE,
    {
        proof {
            use_type_invariant(self);
            self.lemma_rows();
        }
        self.state[row][column]
    }

    /// Whether `(row, column)` lies on the board.
    fn in_bounds(row: i32, column: i32) -> (b: bool)
        ensures
            b == on_board(row as int, column as int),
    {
        0 <= row && row <= 7 && 0 <= column && column <= 7
    }

    /// The side that plays against `player`.
    fn calculate_opposite_player(player: i32) -> (other: i32)
        requires
            player != i32::MIN,
        ensures
            other == -player,
    {
        -player
    }

    /// Whether `player` may move to `(row, column)`.
    pub fn is_field_legal(&self, row: u32, column: u32, player: i32) -> (b: bool)
        requires
            row < 8,
            column < 8,
            is_player(player as int),
        ensures
            b == legal(self.grid(), row as int, column as int, player as int),
    {
        proof {
            use_type_invariant(self);
            self.lemma_rows();
        }
        if self.state[row as usize][column as usize] != EMPTY {
            return false;
        }
        let opposite_player = Self::calculate_opposite_player(player);
        let ghost g = self.grid();
        let mut d: usize = 0;
        while d < 8
            invariant
                d <= 8,
                self.wf(),
                g == self.grid(),
                self.state@.len() == 8,
                forall|r: int| 0 <= r < 8 ==> (#[trigger] self.state@[r])@.len() == 8,
                forall|r: int| 0 <= r < 8 ==> (#[trigger] self.state@[r])@ == g[r],
                row < 8,
                column < 8,
                is_player(player as int),
                opposite_player == -player,
                g[row as int][column as int] == EMPTY,
                forall|e: int|
                    0 <= e < d ==> !#[trigger] captures(
                        g,
                        row as int,
                        column as int,
                        step(e).0,
                        step(e).1,
                        player as int,
                    ),
            decreases 8 - d,
        {
            let (x_dir, y_dir) = step_at(d);
            let mut x: i32 = row as i32 + x_dir;
            let mut y: i32 = column as i32 + y_dir;
            let mut counter: u32 = 0;
            while Self::in_bounds(x, y) && self.state[x as usize][y as usize] == opposite_player
                invariant
                    self.wf(),
                    g == self.grid(),
                    self.state@.len() == 8,
                    forall|r: int| 0 <= r < 8 ==> (#[trigger] self.state@[r])@.len() == 8,
                    forall|r: int| 0 <= r < 8 ==> (#[trigger] self.state@[r])@ == g[r],
                    is_step(x_dir as int, y_dir as int),
                    is_player(player as int),
                    opposite_player == -player,
                    -1 <= x <= 8,
                    -1 <= y <= 8,
                    counter + cells_ahead(x as int, y as int, x_dir as int, y_dir as int) <= 18,
                    counter == 0 ==> x == row + x_dir && y == column + y_dir,
                    counter > 0 ==> on_board(row + x_dir, column + y_dir) && g[row + x_dir][column
                        + y_dir] == -player,
                    counter > 0 ==> line_closed(
                        g,
                        row + x_dir,
                        column + y_dir,
                        x_dir as int,
                        y_dir as int,
                        player as int,
                    ) == line_closed(g, x as int, y as int, x_dir as int, y_dir as int, player as int),
                decreases cells_ahead(x as int, y as int, x_dir as int, y_dir as int),
            {
                counter += 1;
                x += x_dir;
                y += y_dir;
            }
            if Self::in_bounds(x, y) && self.state[x as usize][y as usize] == player && counter
                > 0 {
                assert(captures(
                    g,
                    row as int,
                    column as int,
                    step(d as int).0,
                    step(d as int).1,
                    player as int,
                ));
                return true;
            }
            d += 1;
        }
        false
    }

    /// The moves that `player` may make, row by row.
    pub fn all_legal_moves(&self, player: i32) -> (moves: Vec<(u32, u32)>)
        requires
            is_player(player as int),
        ensures
            moves@ == legal_moves(self.grid(), player as int),
    {
        let ghost test = legal_for(self.grid(), player as int);
        let mut moves: Vec<(u32, u32)> = Vec::new();
        let mut i: u32 = 0;
        assert(cells().take(0) =~= Seq::empty());
        while i < 64
            invariant
                i <= 64,
                is_player(player as int),
                test == legal_for(self.grid(), player as int),
                moves@ == cells().take(i as int).filter(test),
            decreases 64 - i,
        {
            let row: u32 = i / 8;
            let column: u32 = i % 8;
            proof {
                assert(cells().take(i + 1) =~= cells().take(i as int).push(cells()[i as int]));
                cells().take(i as int).lemma_filter_push(cells()[i as int], test);
            }
            if self.is_field_legal(row, column, player) {
                moves.push((row, column));
            }
            i += 1;
        }
        assert(cells().take(64) =~= cells());
        moves
    }

    /// The number of moves that `player` may make.
    pub(crate) fn num_legal_moves(&self, player: i32) -> (count: u32)
        requires
            is_player(player as int),
        ensures
            count == legal_moves(self.grid(), player as int).len(),
            count <= 64,
    {
        let ghost test = legal_for(self.grid(), player as int);
        let mut count: u32 = 0;
        let mut i: u32 = 0;
        assert(cells().take(0) =~= Seq::empty());
        while i < 64
            invariant
                i <= 64,
                count <= i,
                is_player(player as int),
                test == legal_for(self.grid(), player as int),
                count == cells().take(i as int).filter(test).len(),
            decreases 64 - i,
        {
            let row: u32 = i / 8;
            let column: u32 = i % 8;
            proof {
                assert(cells().take(i + 1) =~= cells().take(i as int).push(cells()[i as int]));
                cells().take(i as int).lemma_filter_push(cells()[i as int], test);
            }
            if self.is_field_legal(row, column, player) {
                count += 1;
            }
            i += 1;
        }
        assert(cells().take(64) =~= cells());
        count
    }

    /// Whether `player` has no move.
    pub fn is_terminal(&self, player: i32) -> (b: bool)
        requires
            is_player(player as int),
        ensures
            b == terminal(self.grid(), player as int),
    {
        let ghost test = legal_for(self.grid(), player as int);
        let mut i: u32 = 0;
        assert(cells().take(0) =~= Seq::empty());
        while i < 64
            invariant
                i <= 64,
                is_player(player as int),
                test == legal_for(self.grid(), player as int),
                cells().take(i as int).filter(test).len() == 0,
            decreases 64 - i,
        {
            let row: u32 = i / 8;
            let column: u32 = i % 8;
            proof {
                assert(cells().take(i + 1) =~= cells().take(i as int).push(cells()[i as int]));
                cells().take(i as int).lemma_filter_push(cells()[i as int], test);
            }
            if self.is_field_legal(row, column, player) {
                proof {
                    cells().lemma_filter_contains(test, i as int);
                }
                return false;
            }
            i += 1;
        }
        assert(cells().take(64) =~= cells());
        true
    }

    /// The positions that the moves of `player` lead to, in the order of
    /// [`Table::all_legal_moves`].
    pub fn next_tables(&self, player: i32) -> (tables: Vec<Table>)
        requires
            is_player(player as int),
        ensures
            tables@.len() == legal_moves(self.grid(), player as int).len(),
            forall|i: int|
                0 <= i < tables@.len() ==> {
                    let m = legal_moves(self.grid(), player as int)[i];
                    &&& (#[trigger] tables@[i]).grid() == placed(
                        self.grid(),
                        m.0 as int,
                        m.1 as int,
                        player,
                    )
                    &&& tables@[i].bot() == self.bot()
                    &&& tables@[i].player() == self.player()
                },
    {
        let moves = self.all_legal_moves(player);
        proof {
            lemma_legal_moves(self.grid(), player as int);
        }
        let mut tables: Vec<Table> = Vec::new();
        let mut i: usize = 0;
        while i < moves.len()
            invariant
                i <= moves@.len(),
                is_player(player as int),
                moves@ == legal_moves(self.grid(), player as int),
                forall|j: int| 0 <= j < moves@.len() ==> (#[trigger] moves@[j]).0 < 8 && moves@[j].1 < 8,
                tables@.len() == i,
                forall|j: int|
                    0 <= j < i ==> {
                        let m = moves@[j];
                        &&& (#[trigger] tables@[j]).grid() == placed(
                            self.grid(),
                            m.0 as int,
                            m.1 as int,
                            player,
                        )
                        &&& tables@[j].bot() == self.bot()
                        &&& tables@[j].player() == self.player()
                    },
            decreases moves@.len() - i,
        {
            let (row, column) = moves[i];
            tables.push(self.next_table(row, column, player));
            i += 1;
        }
        tables
    }

    /// A copy of the rows of the grid.
    pub fn get_state_cloned(&self) -> (state: Vec<Vec<i32>>)
        ensures
            grid_of(state) == self.grid(),
    {
        proof {
            use_type_invariant(self);
            self.lemma_rows();
        }
        let mut state: Vec<Vec<i32>> = Vec::new();
        let mut r: usize = 0;
        while r < 8
            invariant
                r <= 8,
                self.state@.len() == 8,
                forall|i: int| 0 <= i < 8 ==> (#[trigger] self.state@[i])@.len() == 8,
                state@.len() == r,
                forall|i: int| 0 <= i < r ==> (#[trigger] state@[i])@ == self.state@[i]@,
            decreases 8 - r,
        {
            let mut cells: Vec<i32> = Vec::new();
            let mut c: usize = 0;
            while c < 8
                invariant
                    c <= 8,
                    r < 8,
                    self.state@.len() == 8,
                    self.state@[r as int]@.len() == 8,
                    cells@.len() == c,
                    forall|j: int| 0 <= j < c ==> cells@[j] == self.state@[r as int]@[j],
                decreases 8 - c,
            {
                cells.push(self.state[r][c]);
                c += 1;
            }
            assert(cells@ =~= self.state@[r as int]@);
            state.push(cells);
            r += 1;
        }
        assert(grid_of(state) =~= self.grid());
        state
    }

    /// Carries out the move of `player` to `(row, column)` in the
    /// direction `d`, on `state`: where the direction brackets a line of
    /// opposing disks, those disks and the cell of the move go to `player`.
    fn flip_direction(
        &self,
        state: &mut Vec<Vec<i32>>,
        row: u32,
        column: u32,
        player: i32,
        d: usize,
    )
        requires
            board_shaped(*old(state)),
            row < 8,
            column < 8,
            is_player(player as int),
            d < 8,
        ensures
            board_shaped(*final(state)),
            forall|p: int, q: int|
                0 <= p < 8 && 0 <= q < 8 ==> #[trigger] final(state)@[p]@[q] == (if captures(
                    self.grid(),
                    row as int,
                    column as int,
                    step(d as int).0,
                    step(d as int).1,
                    player as int,
                ) && ((p == row && q == column) || in_line(
                    self.grid(),
                    row + step(d as int).0,
                    column + step(d as int).1,
                    step(d as int).0,
                    step(d as int).1,
                    player as int,
                    p,
                    q,
                )) {
                    player
                } else {
                    old(state)@[p]@[q]
                }),
    {
        proof {
            use_type_invariant(self);
            self.lemma_rows();
        }
        let opposite_player = Self::calculate_opposite_player(player);
        let ghost g = self.grid();
        let (x_dir, y_dir) = step_at(d);
        let ghost first_x = row + x_dir;
        let ghost first_y = column + y_dir;
        let mut x: i32 = row as i32 + x_dir;
        let mut y: i32 = column as i32 + y_dir;
        let mut flips: Vec<(usize, usize)> = Vec::new();
        while Self::in_bounds(x, y) && self.state[x as usize][y as usize] == opposite_player
            invariant
                self.wf(),
                g == self.grid(),
                self.state@.len() == 8,
                forall|r: int| 0 <= r < 8 ==> (#[trigger] self.state@[r])@.len() == 8,
                forall|r: int| 0 <= r < 8 ==> (#[trigger] self.state@[r])@ == g[r],
                is_step(x_dir as int, y_dir as int),
                is_player(player as int),
                opposite_player == -player,
                -1 <= x <= 8,
                -1 <= y <= 8,
                first_x == row + x_dir,
                first_y == column + y_dir,
                flips@.len() == 0 ==> x == first_x && y == first_y,
                flips@.len() > 0 ==> on_board(first_x, first_y) && g[first_x][first_y] == -player,
                line_closed(g, first_x, first_y, x_dir as int, y_dir as int, player as int)
                    == line_closed(g, x as int, y as int, x_dir as int, y_dir as int, player as int),
                forall|j: int| 0 <= j < flips@.len() ==> (#[trigger] flips@[j]).0 < 8 && flips@[j].1 < 8,
                forall|p: int, q: int| #[trigger]
                    in_line(g, first_x, first_y, x_dir as int, y_dir as int, player as int, p, q)
                        <==> (listed(flips@, flips@.len() as int, p, q) || in_line(
                        g,
                        x as int,
                        y as int,
                        x_dir as int,
                        y_dir as int,
                        player as int,
                        p,
                        q,
                    )),
            decreases cells_ahead(x as int, y as int, x_dir as int, y_dir as int),
        {
            let ghost before = flips@;
            let ghost x0 = x as int;
            let ghost y0 = y as int;
            flips.push((x as usize, y as usize));
            x += x_dir;
            y += y_dir;
            proof {
                assert forall|p: int, q: int| #[trigger]
                    in_line(
                        g,
                        first_x,
                        first_y,
                        x_dir as int,
                        y_dir as int,
                        player as int,
                        p,
                        q,
                    ) <==> (listed(flips@, flips@.len() as int, p, q) || in_line(
                        g,
                        x as int,
                        y as int,
                        x_dir as int,
                        y_dir as int,
                        player as int,
                        p,
                        q,
                    )) by {
                    let here = in_line(g, x0, y0, x_dir as int, y_dir as int, player as int, p, q);
                    assert(here <==> ((x0 == p && y0 == q) || in_line(
                        g,
                        x as int,
                        y as int,
                        x_dir as int,
                        y_dir as int,
                        player as int,
                        p,
                        q,
                    )));
                    if listed(before, before.len() as int, p, q) {
                        let j = choose|j: int|
                            0 <= j < before.len() && (#[trigger] before[j]).0 == p && before[j].1
                                == q;
                        assert(flips@[j] == before[j]);
                    }
                    if x0 == p && y0 == q {
                        assert(flips@[before.len() as int].0 == p);
                    }
                    if listed(flips@, flips@.len() as int, p, q) {
                        let j = choose|j: int|
                            0 <= j < flips@.len() && (#[trigger] flips@[j]).0 == p && flips@[j].1
                                == q;
                        if j < before.len() {
                            assert(before[j] == flips@[j]);
                        }
                    }
                }
            }
        }
        if Self::in_bounds(x, y) && self.state[x as usize][y as usize] == player && flips.len()
            > 0 {
            let ghost start = *state;
            let mut k: usize = 0;
            while k < flips.len()
                invariant
                    k <= flips@.len(),
                    board_shaped(*state),
                    is_player(player as int),
                    forall|j: int| 0 <= j < flips@.len() ==> (#[trigger] flips@[j]).0 < 8 && flips@[j].1 < 8,
                    forall|p: int, q: int|
                        0 <= p < 8 && 0 <= q < 8 ==> #[trigger] state@[p]@[q] == (if listed(
                            flips@,
                            k as int,
                            p,
                            q,
                        ) {
                            player
                        } else {
                            start@[p]@[q]
                        }),
                decreases flips@.len() - k,
            {
                let (x_flip, y_flip) = flips[k];
                let ghost prior = *state;
                put(state, x_flip, y_flip, player);
                proof {
                    assert forall|p: int, q: int| 0 <= p < 8 && 0 <= q < 8 implies #[trigger] state@[p]@[q]
                        == (if listed(flips@, k + 1, p, q) {
                        player
                    } else {
                        start@[p]@[q]
                    }) by {
                        assert(prior@[p]@[q] == (if listed(flips@, k as int, p, q) {
                            player
                        } else {
                            start@[p]@[q]
                        }));
                        if listed(flips@, k as int, p, q) {
                            let j = choose|j: int|
                                0 <= j < k && (#[trigger] flips@[j]).0 == p && flips@[j].1 == q;
                            assert(flips@[j].0 == p);
                        }
                        if p == x_flip && q == y_flip {
                            assert(flips@[k as int].0 == p);
                        }
                    }
                }
                k += 1;
            }
            let ghost turned_all = *state;
            put(state, row as usize, column as usize, player);
            proof {
                assert(captures(
                    g,
                    row as int,
                    column as int,
                    step(d as int).0,
                    step(d as int).1,
                    player as int,
                ));
                assert forall|p: int, q: int| 0 <= p < 8 && 0 <= q < 8 implies #[trigger] state@[p]@[q]
                    == (if (p == row && q == column) || in_line(
                    g,
                    first_x,
                    first_y,
                    x_dir as int,
                    y_dir as int,
                    player as int,
                    p,
                    q,
                ) {
                    player
                } else {
                    start@[p]@[q]
                }) by {
                    assert(turned_all@[p]@[q] == (if listed(flips@, flips@.len() as int, p, q) {
                        player
                    } else {
                        start@[p]@[q]
                    }));
                    assert(!in_line(
                        g,
                        x as int,
                        y as int,
                        x_dir as int,
                        y_dir as int,
                        player as int,
                        p,
                        q,
                    ));
                }
            }
        } else {
            assert(!captures(
                g,
                row as int,
                column as int,
                step(d as int).0,
                step(d as int).1,
                player as int,
            ));
        }
    }

    /// The position after `player` has moved to `(row, column)`: every
    /// disk that the move brackets is turned, in every direction, and the
    /// cell of the move is taken if any disk was turned. A move that
    /// brackets nothing leaves the grid as it is.
    pub fn next_table(&self, row: u32, column: u32, player: i32) -> (next: Self)
        requires
            row < 8,
            column < 8,
            is_player(player as int),
        ensures
            next.grid() == placed(self.grid(), row as int, column as int, player),
            next.bot() == self.bot(),
            next.player() == self.player(),
    {
        proof {
            use_type_invariant(self);
            self.lemma_rows();
        }
        let ghost g = self.grid();
        let mut state = self.get_state_cloned();
        assert(board_shaped(state)) by {
            assert forall|r: int| 0 <= r < 8 implies (#[trigger] state@[r])@.len() == 8 by {
                assert(grid_of(state)[r] == state@[r]@);
            }
        }
        assert forall|p: int, q: int| 0 <= p < 8 && 0 <= q < 8 implies #[trigger] state@[p]@[q]
            == placed_within(g, row as int, column as int, player, 0, p, q) by {
            assert(grid_of(state)[p] == state@[p]@);
        }
        let mut d: usize = 0;
        while d < 8
            invariant
                d <= 8,
                g == self.grid(),
                row < 8,
                column < 8,
                is_player(player as int),
                board_shaped(state),
                forall|p: int, q: int|
                    0 <= p < 8 && 0 <= q < 8 ==> #[trigger] state@[p]@[q] == placed_within(
                        g,
                        row as int,
                        column as int,
                        player,
                        d as int,
                        p,
                        q,
                    ),
            decreases 8 - d,
        {
            let ghost prior = state;
            self.flip_direction(&mut state, row, column, player, d);
            proof {
                assert forall|p: int, q: int| 0 <= p < 8 && 0 <= q < 8 implies #[trigger] state@[p]@[q]
                    == placed_within(g, row as int, column as int, player, d + 1, p, q) by {
                    assert(prior@[p]@[q] == placed_within(
                        g,
                        row as int,
                        column as int,
                        player,
                        d as int,
                        p,
                        q,
                    ));
                    lemma_placed_step(g, row as int, column as int, player, d as int, p, q);
                }
            }
            d += 1;
        }
        proof {
            assert forall|p: int, q: int| 0 <= p < 8 && 0 <= q < 8 implies #[trigger] state@[p]@[q]
                == placed(g, row as int, column as int, player)[p][q] by {
                lemma_placed_whole(g, row as int, column as int, player, p, q);
            }
            assert forall|p: int| 0 <= p < 8 implies #[trigger] grid_of(state)[p] =~= placed(
                g,
                row as int,
                column as int,
                player,
            )[p] by {
                assert(grid_of(state)[p] == state@[p]@);
            }
            assert(grid_of(state) =~= placed(g, row as int, column as int, player));
            lemma_placed_valid(g, row as int, column as int, player);
        }
        Table { state, bot: self.bot, player: self.player }
    }
}

/// One more direction: the cell has the value that the direction `d` gives
/// it over the value that the first `d` directions gave it.
proof fn lemma_placed_step(g: Grid, r: int, c: int, who: i32, d: int, x: int, y: int)
    requires
        0 <= d < 8,
    ensures
        placed_within(g, r, c, who, d + 1, x, y) == (if captures(
            g,
            r,
            c,
            step(d).0,
            step(d).1,
            who as int,
        ) && ((x == r && y == c) || in_line(
            g,
            r + step(d).0,
            c + step(d).1,
            step(d).0,
            step(d).1,
            who as int,
            x,
            y,
        )) {
            who
        } else {
            placed_within(g, r, c, who, d, x, y)
        }),
{
    let w = who as int;
    if captures_within(g, r, c, w, d + 1) {
        let e = choose|e: int| 0 <= e < d + 1 && #[trigger] captures(g, r, c, step(e).0, step(e).1, w);
        if e < d {
            assert(captures_within(g, r, c, w, d));
        }
    }
    if captures_within(g, r, c, w, d) {
        let e = choose|e: int| 0 <= e < d && #[trigger] captures(g, r, c, step(e).0, step(e).1, w);
        assert(captures(g, r, c, step(e).0, step(e).1, w));
    }
    if turned_within(g, r, c, w, x, y, d + 1) {
        let e = choose|e: int|
            0 <= e < d + 1 && captures(g, r, c, step(e).0, step(e).1, w) && #[trigger] in_line(
                g,
                r + step(e).0,
                c + step(e).1,
                step(e).0,
                step(e).1,
                w,
                x,
                y,
            );
        if e < d {
            assert(turned_within(g, r, c, w, x, y, d));
        }
    }
    if turned_within(g, r, c, w, x, y, d) {
        let e = choose|e: int|
            0 <= e < d && captures(g, r, c, step(e).0, step(e).1, w) && #[trigger] in_line(
                g,
                r + step(e).0,
                c + step(e).1,
                step(e).0,
                step(e).1,
                w,
                x,
                y,
            );
        assert(in_line(g, r + step(e).0, c + step(e).1, step(e).0, step(e).1, w, x, y));
    }
    if captures(g, r, c, step(d).0, step(d).1, w) {
        assert(captures_within(g, r, c, w, d + 1));
        if in_line(g, r + step(d).0, c + step(d).1, step(d).0, step(d).1, w, x, y) {
            assert(turned_within(g, r, c, w, x, y, d + 1));
        }
    }
}

/// After all eight directions the cell has the value that the move gives it.
proof fn lemma_placed_whole(g: Grid, r: int, c: int, who: i32, x: int, y: int)
    requires
        0 <= x < 8,
        0 <= y < 8,
    ensures
        placed_within(g, r, c, who, 8, x, y) == placed(g, r, c, who)[x][y],
{
    let w = who as int;
    assert(captures_within(g, r, c, w, 8) == captures_any(g, r, c, w));
    assert(turned_within(g, r, c, w, x, y, 8) == turned(g, r, c, w, x, y));
}

impl Clone for Table {
    /// A copy with the same grid and the same sides.
    fn clone(&self) -> (copy: Self)
        ensures
            copy.grid() == self.grid(),
            copy.bot() == self.bot(),
            copy.player() == self.player(),
    {
        proof {
            use_type_invariant(self);
        }
        Table { state: self.get_state_cloned(), bot: self.bot, player: self.player }
    }
}

} // verus!
