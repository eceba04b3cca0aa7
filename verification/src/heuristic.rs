//! The value of a position: who has won where the game is over, and a
//! weighted estimate where it is not.

use vstd::prelude::*;
use crate::rules::{
    cells, is_player, legal_for, legal_moves, on_board, step, valid_grid, Grid, EMPTY,
};
use crate::score::{top_rank, Score};
use crate::table_state::{step_at, Table};

verus! {

/// The worth of holding each cell: corners count most, their neighbours
/// count against their holder.
pub open spec fn weights() -> Seq<Seq<int>> {
    seq![
        seq![20, -3, 11, 8, 8, 11, -3, 20],
        seq![-3, -7, -4, 1, 1, -4, -7, -3],
        seq![11, -4, 2, 2, 2, 2, -4, 11],
        seq![8, 1, 2, -3, -3, 2, 1, 8],
        seq![8, 1, 2, -3, -3, 2, 1, 8],
        seq![11, -4, 2, 2, 2, 2, -4, 11],
        seq![-3, -7, -4, 1, 1, -4, -7, -3],
        seq![20, -3, 11, 8, 8, 11, -3, 20],
    ]
}

/// The sum of `f` over the first `n` cells, row by row.
pub open spec fn sum_cells(f: spec_fn(int, int) -> int, n: nat) -> int
    decreases n,
{
    if n == 0 {
        0
    } else {
        sum_cells(f, (n - 1) as nat) + f((n - 1) / 8, (n - 1) % 8)
    }
}

/// 1 where `b` holds, else 0.
pub open spec fn one_if(b: bool) -> int {
    if b {
        1
    } else {
        0
    }
}

/// Counts the cell `(r, c)` where `who` holds it.
pub open spec fn held_by(g: Grid, who: int) -> spec_fn(int, int) -> int {
    |r: int, c: int| one_if(g[r][c] == who)
}

/// The number of disks of `who`.
pub open spec fn disks(g: Grid, who: int) -> int {
    sum_cells(held_by(g, who), 64)
}

/// The worth of `(r, c)` to `bot`: the weight of the cell where `bot`
/// holds it, minus the weight where the opponent does.
pub open spec fn worth_to(g: Grid, bot: int) -> spec_fn(int, int) -> int {
    |r: int, c: int|
        if g[r][c] == bot {
            weights()[r][c]
        } else if g[r][c] == -bot {
            -weights()[r][c]
        } else {
            0
        }
}

/// The sum of the weights of the cells of `bot`, minus that of the cells
/// of its opponent.
pub open spec fn weight_sum(g: Grid, bot: int) -> int {
    sum_cells(worth_to(g, bot), 64)
}

/// `(r, c)` has an empty neighbour on the board.
pub open spec fn exposed(g: Grid, r: int, c: int) -> bool {
    exists|d: int|
        0 <= d < 8 && on_board(r + step(d).0, c + step(d).1) && (#[trigger] g[r + step(
            d,
        ).0])[c + step(d).1] == EMPTY
}

/// Counts the cell `(r, c)` where `who` holds it next to an empty cell.
pub open spec fn exposed_of(g: Grid, who: int) -> spec_fn(int, int) -> int {
    |r: int, c: int| one_if(g[r][c] == who && exposed(g, r, c))
}

/// The number of disks of `who` that have an empty neighbour.
pub open spec fn exposed_disks(g: Grid, who: int) -> int {
    sum_cells(exposed_of(g, who), 64)
}

/// The number of corners that `who` holds.
pub open spec fn corners(g: Grid, who: int) -> int {
    one_if(g[0][0] == who) + one_if(g[0][7] == who) + one_if(g[7][0] == who) + one_if(
        g[7][7] == who,
    )
}

/// The number of the three neighbours of the corner `(r, c)` that `who`
/// holds, where the corner is empty; else 0. `(nr, nc)` is the
/// neighbouring row and column.
pub open spec fn near_corner(g: Grid, who: int, r: int, c: int, nr: int, nc: int) -> int {
    if g[r][c] == EMPTY {
        one_if(g[r][nc] == who) + one_if(g[nr][nc] == who) + one_if(g[nr][c] == who)
    } else {
        0
    }
}

/// The number of cells next to an empty corner that `who` holds.
pub open spec fn near_corners(g: Grid, who: int) -> int {
    near_corner(g, who, 0, 0, 1, 1) + near_corner(g, who, 0, 7, 1, 6) + near_corner(
        g,
        who,
        7,
        0,
        6,
        1,
    ) + near_corner(g, who, 7, 7, 6, 6)
}

/// The number of moves that `who` may make.
pub open spec fn mobility(g: Grid, who: int) -> int {
    legal_moves(g, who).len() as int
}

/// The numerator of the lead of `a` over `b` in percent: the share of the
/// larger count in the sum, positive where `a` leads, negative where `b`
/// does, and 0 where they are level.
pub open spec fn lead_num(a: int, b: int) -> int {
    if a > b {
        100 * a
    } else if b > a {
        -100 * b
    } else {
        0
    }
}

/// The denominator that goes with [`lead_num`].
pub open spec fn lead_den(a: int, b: int) -> int {
    if a != b {
        a + b
    } else {
        1
    }
}

/// What does not come as a percentage, in thousandths: the corners held
/// (25 each, weighted 801.724), the cells next to an empty corner (-12.5
/// each, weighted 382.026) and the weights of the cells held (weighted 10).
pub open spec fn plain_part(g: Grid, bot: int) -> int {
    20_043_100 * (corners(g, bot) - corners(g, -bot)) - 4_775_325 * (near_corners(g, bot)
        - near_corners(g, -bot)) + 10_000 * weight_sum(g, bot)
}

/// The denominator of the estimate: the three percentages brought to one
/// denominator, in thousandths.
pub open spec fn heuristic_den(g: Grid, bot: int) -> int {
    1000 * (lead_den(disks(g, bot), disks(g, -bot)) * lead_den(
        mobility(g, bot),
        mobility(g, -bot),
    ) * lead_den(exposed_disks(g, bot), exposed_disks(g, -bot)))
}

/// The numerator of the estimate. The estimate is the sum of: the lead in
/// disks, weighted 10; the lead in moves, weighted 78.922; the lead of the
/// opponent in disks with an empty neighbour, weighted 74.396; and
/// [`plain_part`]. A positive estimate favours `bot`.
pub open spec fn heuristic_num(g: Grid, bot: int) -> int {
    let d1 = lead_den(disks(g, bot), disks(g, -bot));
    let d2 = lead_den(mobility(g, bot), mobility(g, -bot));
    let d3 = lead_den(exposed_disks(g, bot), exposed_disks(g, -bot));
    10_000 * lead_num(disks(g, bot), disks(g, -bot)) * (d2 * d3) + 78_922 * lead_num(
        mobility(g, bot),
        mobility(g, -bot),
    ) * (d1 * d3) - 74_396 * lead_num(exposed_disks(g, bot), exposed_disks(g, -bot)) * (d1 * d2)
        + plain_part(g, bot) * (d1 * d2 * d3)
}

/// The rank of the result of a finished game: plus infinity where `bot`
/// has more disks, minus infinity where it has fewer, zero where the two
/// have as many.
pub open spec fn goal_rank(g: Grid, bot: int) -> int {
    if disks(g, bot) > disks(g, -bot) {
        top_rank()
    } else if disks(g, bot) < disks(g, -bot) {
        -top_rank()
    } else {
        0
    }
}

/// The weight of the cell `(r, c)`.
fn weight_at(r: usize, c: usize) -> (w: i64)
    requires
        r < 8,
        c < 8,
    ensures
        w == weights()[r as int][c as int],
        -7 <= w <= 20,
{
    let i: usize = if r < 4 {
        r
    } else {
        7 - r
    };
    let j: usize = if c < 4 {
        c
    } else {
        7 - c
    };
    if i == 0 {
        if j == 0 {
            20
        } else if j == 1 {
            -3
        } else if j == 2 {
            11
        } else {
            8
        }
    } else if i == 1 {
        if j == 0 {
            -3
        } else if j == 1 {
            -7
        } else if j == 2 {
            -4
        } else {
            1
        }
    } else if i == 2 {
        if j == 0 {
            11
        } else if j == 1 {
            -4
        } else {
            2
        }
    } else {
        if j == 0 {
            8
        } else if j == 1 {
            1
        } else if j == 2 {
            2
        } else {
            -3
        }
    }
}

/// 1 where `b` holds, else 0.
fn count_if(b: bool) -> (n: i64)
    ensures
        n == one_if(b),
{
    if b {
        1
    } else {
        0
    }
}

/// The lead of `a` over `b` in percent, as a numerator and a denominator.
fn lead(a: i64, b: i64) -> (l: (i64, i64))
    requires
        0 <= a <= 64,
        0 <= b <= 64,
    ensures
        l.0 == lead_num(a as int, b as int),
        l.1 == lead_den(a as int, b as int),
        -6400 <= l.0 <= 6400,
        1 <= l.1 <= 128,
{
    if a > b {
        (100 * a, a + b)
    } else if b > a {
        (0 - 100 * b, a + b)
    } else {
        (0, 1)
    }
}

/// The product of a weighted count and a denominator.
fn scaled(a: i64, b: i64) -> (p: i64)
    requires
        -0x1_0000_0000 <= a <= 0x1_0000_0000,
        0 <= b <= 0x20_0000,
    ensures
        p == a * b,
        -0x20_0000_0000_0000 <= p <= 0x20_0000_0000_0000,
        b >= 1 && a >= 1 ==> p >= 1,
{
    assert(-0x20_0000_0000_0000 <= a * b <= 0x20_0000_0000_0000 && (b >= 1 && a >= 1 ==> a * b
        >= 1)) by (nonlinear_arith)
        requires
            -0x1_0000_0000 <= a <= 0x1_0000_0000,
            0 <= b <= 0x20_0000,
    ;
    a * b
}

/// What one pass over the grid counts.
struct Census {
    weight_sum: i64,
    bot_disks: i64,
    player_disks: i64,
    bot_exposed: i64,
    player_exposed: i64,
}

impl Table {
    /// Whether `(row, column)` has an empty neighbour on the board.
    fn is_exposed(&self, row: usize, column: usize) -> (b: bool)
        requires
            row < 8,
            column < 8,
        ensures
            b == exposed(self.grid(), row as int, column as int),
    {
        let ghost g = self.grid();
        let mut d: usize = 0;
        while d < 8
            invariant
                d <= 8,
                row < 8,
                column < 8,
                g == self.grid(),
                forall|e: int|
                    0 <= e < d ==> !(on_board(row + step(e).0, column + step(e).1) && (
                    #[trigger] g[row + step(e).0])[column + step(e).1] == EMPTY),
            decreases 8 - d,
        {
            let (x_dir, y_dir) = step_at(d);
            let x: i32 = row as i32 + x_dir;
            let y: i32 = column as i32 + y_dir;
            if 0 <= x && x < 8 && 0 <= y && y < 8 {
                if self.cell(x as usize, y as usize) == EMPTY {
                    assert(g[row + step(d as int).0][column + step(d as int).1] == EMPTY);
                    return true;
                }
            }
            d += 1;
        }
        false
    }

    /// Counts the disks of both sides, those with an empty neighbour, and
    /// the weights of the cells held.
    fn census(&self) -> (n: Census)
        ensures
            n.weight_sum == weight_sum(self.grid(), self.bot() as int),
            n.bot_disks == disks(self.grid(), self.bot() as int),
            n.player_disks == disks(self.grid(), self.player() as int),
            n.bot_exposed == exposed_disks(self.grid(), self.bot() as int),
            n.player_exposed == exposed_disks(self.grid(), self.player() as int),
            -1280 <= n.weight_sum <= 1280,
            0 <= n.bot_disks <= 64,
            0 <= n.player_disks <= 64,
            0 <= n.bot_exposed <= 64,
            0 <= n.player_exposed <= 64,
    {
        proof {
            use_type_invariant(self);
        }
        let ghost g = self.grid();
        let bot = self.bot();
        let player = self.player();
        let mut n = Census {
            weight_sum: 0,
            bot_disks: 0,
            player_disks: 0,
            bot_exposed: 0,
            player_exposed: 0,
        };
        let mut i: usize = 0;
        while i < 64
            invariant
                i <= 64,
                g == self.grid(),
                bot == self.bot(),
                player == self.player(),
                is_player(player as int),
                bot == -player,
                n.weight_sum == sum_cells(worth_to(g, bot as int), i as nat),
                n.bot_disks == sum_cells(held_by(g, bot as int), i as nat),
                n.player_disks == sum_cells(held_by(g, player as int), i as nat),
                n.bot_exposed == sum_cells(exposed_of(g, bot as int), i as nat),
                n.player_exposed == sum_cells(exposed_of(g, player as int), i as nat),
                -20 * i <= n.weight_sum <= 20 * i,
                0 <= n.bot_disks <= i,
                0 <= n.player_disks <= i,
                0 <= n.bot_exposed <= i,
                0 <= n.player_exposed <= i,
            decreases 64 - i,
        {
            let row: usize = i / 8;
            let column: usize = i % 8;
            let v = self.cell(row, column);
            let w = weight_at(row, column);
            if v == bot {
                n.weight_sum = n.weight_sum + w;
                n.bot_disks = n.bot_disks + 1;
            } else if v == player {
                n.weight_sum = n.weight_sum - w;
                n.player_disks = n.player_disks + 1;
            }
            if v != EMPTY {
                if self.is_exposed(row, column) {
                    if v == bot {
                        n.bot_exposed = n.bot_exposed + 1;
                    } else {
                        n.player_exposed = n.player_exposed + 1;
                    }
                }
            }
            i += 1;
        }
        n
    }

    /// The number of corners that `who` holds.
    fn corners_of(&self, who: i32) -> (n: i64)
        ensures
            n == corners(self.grid(), who as int),
            0 <= n <= 4,
    {
        count_if(self.cell(0, 0) == who) + count_if(self.cell(0, 7) == who) + count_if(
            self.cell(7, 0) == who,
        ) + count_if(self.cell(7, 7) == who)
    }

    /// The number of the three neighbours of an empty corner that `who`
    /// holds.
    fn near_corner_of(&self, who: i32, r: usize, c: usize, nr: usize, nc: usize) -> (n: i64)
        requires
            r < 8,
            c < 8,
            nr < 8,
            nc < 8,
        ensures
            n == near_corner(self.grid(), who as int, r as int, c as int, nr as int, nc as int),
            0 <= n <= 3,
    {
        if self.cell(r, c) == EMPTY {
            count_if(self.cell(r, nc) == who) + count_if(self.cell(nr, nc) == who) + count_if(
                self.cell(nr, c) == who,
            )
        } else {
            0
        }
    }

    /// The number of cells next to an empty corner that `who` holds.
    fn near_corners_of(&self, who: i32) -> (n: i64)
        ensures
            n == near_corners(self.grid(), who as int),
            0 <= n <= 12,
    {
        self.near_corner_of(who, 0, 0, 1, 1) + self.near_corner_of(who, 0, 7, 1, 6)
            + self.near_corner_of(who, 7, 0, 6, 1) + self.near_corner_of(who, 7, 7, 6, 6)
    }

    /// The estimate of a position in which the game goes on, as an exact
    /// fraction: the weighted sum of the lead in disks, the corners held,
    /// the cells next to an empty corner, the lead in moves, the disks
    /// with an empty neighbour and the weights of the cells held. A
    /// positive estimate favours the bot.
    pub fn heuristic_value(&self) -> (s: Score)
        ensures
            s.is_finite(),
            s.numerator() == heuristic_num(self.grid(), self.bot() as int),
            s.denominator() == heuristic_den(self.grid(), self.bot() as int),
    {
        proof {
            use_type_invariant(self);
        }
        let bot = self.bot();
        let player = self.player();
        let n = self.census();
        let corner_lead: i64 = self.corners_of(bot) - self.corners_of(player);
        let near_lead: i64 = self.near_corners_of(bot) - self.near_corners_of(player);
        let bot_moves: i64 = self.num_legal_moves(bot) as i64;
        let player_moves: i64 = self.num_legal_moves(player) as i64;
        let plain: i64 = 20_043_100 * corner_lead - 4_775_325 * near_lead + 10_000 * n.weight_sum;
        let (n1, d1) = lead(n.bot_disks, n.player_disks);
        let (n2, d2) = lead(bot_moves, player_moves);
        let (n3, d3) = lead(n.bot_exposed, n.player_exposed);
        let d23: i64 = scaled(d2, d3);
        let d13: i64 = scaled(d1, d3);
        let d12: i64 = scaled(d1, d2);
        assert(d12 <= 128 * 128 && d23 <= 128 * 128 && d13 <= 128 * 128) by (nonlinear_arith)
            requires
                d12 == d1 * d2,
                d23 == d2 * d3,
                d13 == d1 * d3,
                1 <= d1 <= 128,
                1 <= d2 <= 128,
                1 <= d3 <= 128,
        ;
        let d123: i64 = scaled(d12, d3);
        assert(d123 <= 128 * 128 * 128) by (nonlinear_arith)
            requires
                d123 == d12 * d3,
                1 <= d12 <= 128 * 128,
                1 <= d3 <= 128,
        ;
        let num: i64 = scaled(10_000 * n1, d23) + scaled(78_922 * n2, d13) - scaled(
            74_396 * n3,
            d12,
        ) + scaled(plain, d123);
        let den: i64 = 1000 * d123;
        Score::ratio(num, den as u32)
    }

    /// The result of a finished game: plus infinity where the bot has more
    /// disks than its opponent, minus infinity where it has fewer, zero
    /// where the two have as many.
    pub fn goal_value(&self) -> (s: Score)
        ensures
            s.rank() == goal_rank(self.grid(), self.bot() as int),
            disks(self.grid(), self.bot() as int) > disks(self.grid(), self.player() as int)
                ==> s.is_infinity(),
            disks(self.grid(), self.bot() as int) < disks(self.grid(), self.player() as int)
                ==> s.is_neg_infinity(),
            disks(self.grid(), self.bot() as int) == disks(self.grid(), self.player() as int)
                ==> s.is_finite() && s.numerator() == 0 && s.denominator() == 1,
    {
        proof {
            use_type_invariant(self);
        }
        let n = self.census();
        if n.player_disks < n.bot_disks {
            Score::infinity()
        } else if n.player_disks == n.bot_disks {
            Score::whole(0)
        } else {
            Score::neg_infinity()
        }
    }
}

/// A sum over `n` cells of values between `lo` and `hi` lies between
/// `n * lo` and `n * hi`.
pub proof fn lemma_sum_cells_bounds(f: spec_fn(int, int) -> int, n: nat, lo: int, hi: int)
    requires
        n <= 64,
        forall|r: int, c: int| 0 <= r < 8 && 0 <= c < 8 ==> lo <= #[trigger] f(r, c) <= hi,
    ensures
        n * lo <= sum_cells(f, n) <= n * hi,
    decreases n,
{
    if n > 0 {
        lemma_sum_cells_bounds(f, (n - 1) as nat, lo, hi);
        let v = f((n - 1) / 8, (n - 1) % 8);
        assert(lo <= v <= hi);
        assert((n - 1) * lo + lo == n * lo && (n - 1) * hi + hi == n * hi) by (nonlinear_arith);
    }
}

/// The ranges of what the estimate counts, and of its numerator and
/// denominator.
pub proof fn lemma_heuristic_bounds(g: Grid, bot: int)
    requires
        valid_grid(g),
        is_player(bot),
    ensures
        0 <= disks(g, bot) <= 64,
        0 <= disks(g, -bot) <= 64,
        0 <= exposed_disks(g, bot) <= 64,
        0 <= exposed_disks(g, -bot) <= 64,
        0 <= mobility(g, bot) <= 64,
        0 <= mobility(g, -bot) <= 64,
        -1280 <= weight_sum(g, bot) <= 1280,
        1 <= heuristic_den(g, bot) <= 0xffff_ffff,
        -0x8000_0000_0000_0000 <= heuristic_num(g, bot) < 0x8000_0000_0000_0000,
{
    lemma_sum_cells_bounds(held_by(g, bot), 64, 0, 1);
    lemma_sum_cells_bounds(held_by(g, -bot), 64, 0, 1);
    lemma_sum_cells_bounds(exposed_of(g, bot), 64, 0, 1);
    lemma_sum_cells_bounds(exposed_of(g, -bot), 64, 0, 1);
    assert forall|r: int, c: int| 0 <= r < 8 && 0 <= c < 8 implies -20 <= #[trigger] worth_to(
        g,
        bot,
    )(r, c) <= 20 by {
        lemma_weights(r, c);
    }
    lemma_sum_cells_bounds(worth_to(g, bot), 64, -20, 20);
    cells().lemma_filter_len(legal_for(g, bot));
    cells().lemma_filter_len(legal_for(g, -bot));
    let d1 = lead_den(disks(g, bot), disks(g, -bot));
    let d2 = lead_den(mobility(g, bot), mobility(g, -bot));
    let d3 = lead_den(exposed_disks(g, bot), exposed_disks(g, -bot));
    let n1 = lead_num(disks(g, bot), disks(g, -bot));
    let n2 = lead_num(mobility(g, bot), mobility(g, -bot));
    let n3 = lead_num(exposed_disks(g, bot), exposed_disks(g, -bot));
    let plain = plain_part(g, bot);
    assert(-150_276_300 <= plain <= 150_276_300);
    lemma_product_bounds(d1, d2, 128, 128);
    lemma_product_bounds(d1, d3, 128, 128);
    lemma_product_bounds(d2, d3, 128, 128);
    lemma_product_bounds(d1 * d2, d3, 16_384, 128);
    lemma_product_bounds(10_000 * n1, d2 * d3, 64_000_000, 16_384);
    lemma_product_bounds(78_922 * n2, d1 * d3, 505_100_800, 16_384);
    lemma_product_bounds(74_396 * n3, d1 * d2, 476_134_400, 16_384);
    lemma_product_bounds(plain, d1 * d2 * d3, 150_276_300, 2_097_152);
}

/// The product of a factor of size at most `m` and a factor between 1
/// and `top` has size at most `m * top`, and is at least 1 where the
/// first factor is.
proof fn lemma_product_bounds(a: int, b: int, m: int, top: int)
    requires
        -m <= a <= m,
        1 <= b <= top,
    ensures
        -(m * top) <= a * b <= m * top,
        a >= 1 ==> a * b >= 1,
{
    assert(-(m * top) <= a * b <= m * top && (a >= 1 ==> a * b >= 1)) by (nonlinear_arith)
        requires
            -m <= a <= m,
            1 <= b <= top,
    ;
}

/// Every weight lies between -7 and 20.
proof fn lemma_weights(r: int, c: int)
    requires
        0 <= r < 8,
        0 <= c < 8,
    ensures
        -7 <= weights()[r][c] <= 20,
{
    let row = weights()[r];
    assert(row.len() == 8);
}

} // verus!
