//! The rules of the game, stated over grids: which cells a player may take,
//! and what a move does to the board.

use vstd::prelude::*;

verus! {

/// The value of a cell that holds no disk.
pub const EMPTY: i32 = 0;

/// The value of a cell that holds a black disk.
pub const BLACK: i32 = 1;

/// The value of a cell that holds a white disk.
pub const WHITE: i32 = -1;

/// A grid as contracts see it: eight rows of eight cells.
pub type Grid = Seq<Seq<i32>>;

/// `who` names one of the two players.
pub open spec fn is_player(who: int) -> bool {
    who == BLACK || who == WHITE
}

/// `(r, c)` lies on the board.
pub open spec fn on_board(r: int, c: int) -> bool {
    0 <= r < 8 && 0 <= c < 8
}

/// The grid has eight rows of eight cells, each empty or holding one disk.
pub open spec fn valid_grid(g: Grid) -> bool {
    &&& g.len() == 8
    &&& forall|r: int| 0 <= r < 8 ==> (#[trigger] g[r]).len() == 8
    &&& forall|r: int, c: int|
        0 <= r < 8 && 0 <= c < 8 ==> {
            let v = #[trigger] g[r][c];
            v == EMPTY || v == BLACK || v == WHITE
        }
}

/// `(dr, dc)` is one step to a neighbouring cell.
pub open spec fn is_step(dr: int, dc: int) -> bool {
    -1 <= dr <= 1 && -1 <= dc <= 1 && (dr != 0 || dc != 0)
}

/// The eight steps, in the order in which the board walks them.
pub open spec fn step(d: int) -> (int, int) {
    if d == 0 {
        (1, 0)
    } else if d == 1 {
        (-1, 0)
    } else if d == 2 {
        (0, 1)
    } else if d == 3 {
        (0, -1)
    } else if d == 4 {
        (1, 1)
    } else if d == 5 {
        (-1, -1)
    } else if d == 6 {
        (1, -1)
    } else {
        (-1, 1)
    }
}

/// An upper bound on the number of cells that a walk from `(r, c)` by
/// `(dr, dc)` can still visit before it leaves the board.
pub open spec fn cells_ahead(r: int, c: int, dr: int, dc: int) -> int {
    (if dr > 0 {
        8 - r
    } else if dr < 0 {
        r + 1
    } else {
        0
    }) + (if dc > 0 {
        8 - c
    } else if dc < 0 {
        c + 1
    } else {
        0
    })
}

/// Starting on `(r, c)` and walking by `(dr, dc)`, there is an unbroken
/// line of zero or more disks of the opponent of `who`, and the cell right
/// behind it is on the board and holds a disk of `who`.
pub open spec fn line_closed(g: Grid, r: int, c: int, dr: int, dc: int, who: int) -> bool
    decreases cells_ahead(r, c, dr, dc),
{
    is_step(dr, dc) && on_board(r, c) && (g[r][c] == who || (g[r][c] == -who && line_closed(
        g,
        r + dr,
        c + dc,
        dr,
        dc,
        who,
    )))
}

/// `(x, y)` belongs to the unbroken line of disks of the opponent of `who`
/// that starts on `(r, c)` and runs by `(dr, dc)`.
pub open spec fn in_line(
    g: Grid,
    r: int,
    c: int,
    dr: int,
    dc: int,
    who: int,
    x: int,
    y: int,
) -> bool
    decreases cells_ahead(r, c, dr, dc),
{
    is_step(dr, dc) && on_board(r, c) && g[r][c] == -who && ((r == x && c == y) || in_line(
        g,
        r + dr,
        c + dc,
        dr,
        dc,
        who,
        x,
        y,
    ))
}

/// A disk of `who` on `(r, c)` would bracket at least one disk of the
/// opponent in the direction `(dr, dc)`: the neighbouring cell holds an
/// opposing disk, and the line that starts there ends on a disk of `who`.
pub open spec fn captures(g: Grid, r: int, c: int, dr: int, dc: int, who: int) -> bool {
    on_board(r + dr, c + dc) && g[r + dr][c + dc] == -who && line_closed(
        g,
        r + dr,
        c + dc,
        dr,
        dc,
        who,
    )
}

/// A disk of `who` on `(r, c)` would bracket opposing disks in at least
/// one of the eight directions.
pub open spec fn captures_any(g: Grid, r: int, c: int, who: int) -> bool {
    exists|d: int| 0 <= d < 8 && #[trigger] captures(g, r, c, step(d).0, step(d).1, who)
}

/// `who` may move to `(r, c)`: the cell is empty and the move brackets
/// opposing disks in some direction.
pub open spec fn legal(g: Grid, r: int, c: int, who: int) -> bool {
    g[r][c] == EMPTY && captures_any(g, r, c, who)
}

/// The move of `who` to `(r, c)` turns the disk on `(x, y)`: the cell lies
/// on a line of opposing disks that the move brackets.
pub open spec fn turned(g: Grid, r: int, c: int, who: int, x: int, y: int) -> bool {
    exists|d: int|
        0 <= d < 8 && captures(g, r, c, step(d).0, step(d).1, who) && #[trigger] in_line(
            g,
            r + step(d).0,
            c + step(d).1,
            step(d).0,
            step(d).1,
            who,
            x,
            y,
        )
}

/// The grid after `who` has moved to `(r, c)`. Every bracketed disk in
/// every direction is turned; the cell `(r, c)` itself is taken exactly
/// when some direction brackets a disk; every other cell keeps its value.
pub open spec fn placed(g: Grid, r: int, c: int, who: i32) -> Grid {
    Seq::new(
        8,
        |x: int|
            Seq::new(
                8,
                |y: int|
                    if (x == r && y == c && captures_any(g, r, c, who as int)) || turned(
                        g,
                        r,
                        c,
                        who as int,
                        x,
                        y,
                    ) {
                        who
                    } else {
                        g[x][y]
                    },
            ),
    )
}

/// A move on a valid grid gives a valid grid.
pub proof fn lemma_placed_valid(g: Grid, r: int, c: int, who: i32)
    requires
        valid_grid(g),
        is_player(who as int),
    ensures
        valid_grid(placed(g, r, c, who)),
{
    let n = placed(g, r, c, who);
    assert forall|x: int, y: int| 0 <= x < 8 && 0 <= y < 8 implies {
        let v = #[trigger] n[x][y];
        v == EMPTY || v == BLACK || v == WHITE
    } by {
        let v = g[x][y];
        assert(v == EMPTY || v == BLACK || v == WHITE);
    }
}

/// Every cell of a line of opposing disks is on the board and holds a
/// disk of the opponent.
pub proof fn lemma_in_line(g: Grid, r: int, c: int, dr: int, dc: int, who: int, x: int, y: int)
    requires
        in_line(g, r, c, dr, dc, who, x, y),
    ensures
        on_board(x, y),
        g[x][y] == -who,
    decreases cells_ahead(r, c, dr, dc),
{
    if !(r == x && c == y) {
        lemma_in_line(g, r + dr, c + dc, dr, dc, who, x, y);
    }
}

/// A move changes no cell but its own and cells that held a disk of the
/// opponent, and what it changes goes to the side that moved.
pub proof fn lemma_placed_changes(g: Grid, r: int, c: int, who: i32, x: int, y: int)
    requires
        on_board(x, y),
        placed(g, r, c, who)[x][y] != g[x][y],
    ensures
        placed(g, r, c, who)[x][y] == who,
        (x == r && y == c) || g[x][y] == -who,
{
    if turned(g, r, c, who as int, x, y) {
        let d = choose|d: int|
            0 <= d < 8 && captures(g, r, c, step(d).0, step(d).1, who as int) && #[trigger] in_line(
                g,
                r + step(d).0,
                c + step(d).1,
                step(d).0,
                step(d).1,
                who as int,
                x,
                y,
            );
        lemma_in_line(g, r + step(d).0, c + step(d).1, step(d).0, step(d).1, who as int, x, y);
    }
}

/// A move that brackets nothing leaves the grid as it is: no disk is
/// turned and the cell of the move stays as it was.
pub proof fn lemma_placed_without_capture(g: Grid, r: int, c: int, who: i32)
    requires
        valid_grid(g),
        !captures_any(g, r, c, who as int),
    ensures
        placed(g, r, c, who) == g,
{
    let n = placed(g, r, c, who);
    assert forall|x: int| 0 <= x < 8 implies #[trigger] n[x] =~= g[x] by {
        assert forall|y: int| 0 <= y < 8 implies n[x][y] == g[x][y] by {
            if turned(g, r, c, who as int, x, y) {
                let d = choose|d: int|
                    0 <= d < 8 && captures(g, r, c, step(d).0, step(d).1, who as int)
                        && #[trigger] in_line(
                        g,
                        r + step(d).0,
                        c + step(d).1,
                        step(d).0,
                        step(d).1,
                        who as int,
                        x,
                        y,
                    );
                assert(captures(g, r, c, step(d).0, step(d).1, who as int));
            }
        }
    }
    assert(n =~= g);
}

/// A legal move takes its cell and turns at least one disk of the
/// opponent.
pub proof fn lemma_legal_move_turns(g: Grid, r: int, c: int, who: i32)
    requires
        valid_grid(g),
        on_board(r, c),
        legal(g, r, c, who as int),
    ensures
        placed(g, r, c, who)[r][c] == who,
        exists|x: int, y: int|
            on_board(x, y) && g[x][y] == -who && #[trigger] placed(g, r, c, who)[x][y] == who,
{
    let d = choose|d: int| 0 <= d < 8 && #[trigger] captures(g, r, c, step(d).0, step(d).1, who as int);
    let x = r + step(d).0;
    let y = c + step(d).1;
    assert(in_line(g, x, y, step(d).0, step(d).1, who as int, x, y));
    assert(turned(g, r, c, who as int, x, y));
    assert(placed(g, r, c, who)[x][y] == who);
}

/// The sixty-four cells, row by row.
pub open spec fn cells() -> Seq<(u32, u32)> {
    Seq::new(64, |i: int| ((i / 8) as u32, (i % 8) as u32))
}

/// The test that picks the cells to which `who` may move.
pub open spec fn legal_for(g: Grid, who: int) -> spec_fn((u32, u32)) -> bool {
    |m: (u32, u32)| legal(g, m.0 as int, m.1 as int, who)
}

/// The moves that `who` may make, row by row.
pub open spec fn legal_moves(g: Grid, who: int) -> Seq<(u32, u32)> {
    cells().filter(legal_for(g, who))
}

/// `who` has no move: for the search the game ends here, whatever the
/// other side could still do.
pub open spec fn terminal(g: Grid, who: int) -> bool {
    legal_moves(g, who).len() == 0
}

/// Every legal move is a cell of the board to which `who` may move, and
/// every such cell is a legal move.
pub proof fn lemma_legal_moves(g: Grid, who: int)
    ensures
        forall|i: int|
            0 <= i < legal_moves(g, who).len() ==> {
                let m = #[trigger] legal_moves(g, who)[i];
                m.0 < 8 && m.1 < 8 && legal(g, m.0 as int, m.1 as int, who)
            },
        forall|r: int, c: int|
            0 <= r < 8 && 0 <= c < 8 && legal(g, r, c, who) ==> legal_moves(g, who).contains(
                #[trigger] cells()[r * 8 + c],
            ),
{
    let moves = legal_moves(g, who);
    assert forall|i: int| 0 <= i < moves.len() implies {
        let m = #[trigger] moves[i];
        m.0 < 8 && m.1 < 8 && legal(g, m.0 as int, m.1 as int, who)
    } by {
        let m = moves[i];
        cells().lemma_filter_pred(legal_for(g, who), i);
        assert(legal_for(g, who)(m));
        cells().lemma_filter_contains_rev(legal_for(g, who), m);
        let j = choose|j: int| 0 <= j < cells().len() && cells()[j] == m;
        assert(m.0 == j / 8 && m.1 == j % 8);
    }
    assert forall|r: int, c: int| 0 <= r < 8 && 0 <= c < 8 && legal(g, r, c, who) implies moves.contains(
        #[trigger] cells()[r * 8 + c],
    ) by {
        let i = r * 8 + c;
        assert(cells()[i] == (r as u32, c as u32));
        assert(legal_for(g, who)(cells()[i]));
        cells().lemma_filter_contains(legal_for(g, who), i);
    }
}

} // verus!
