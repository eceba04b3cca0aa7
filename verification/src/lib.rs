//! A move chooser for an 8x8 disk-flipping board game.
//!
//! The rules are stated over plain grids in [`rules`]; [`table_state`]
//! holds the executable board, [`heuristic`] the value of a position,
//! [`cache`] the store of estimates, [`minimax`] the search to a given
//! depth, and [`ordering`] the order of the moves at the root. This file
//! holds the search that deepens until its time is up.

pub mod cache;
pub mod clock;
pub mod heuristic;
pub mod minimax;
pub mod ordering;
pub mod rules;
pub mod score;
pub mod table_state;
pub mod text;

use vstd::prelude::*;
use crate::cache::EvalCache;
use crate::clock::now_millis;
use crate::minimax::{
    best_reply, found_rank, lemma_best_reply_grows, lemma_found_agrees,
    lemma_search_value_bounded, min_score, reply, search_value,
};
use crate::ordering::{
    lemma_order_by_rank, moves_of, order_by_rank, priority_indices, ranks_of, Scored,
};
use crate::rules::{
    is_player, legal_moves, lemma_legal_moves, lemma_placed_valid, terminal, valid_grid, Grid,
    BLACK, EMPTY, WHITE,
};
use crate::score::{lemma_span_positive, top_rank, Score};
use crate::table_state::{grid_of, opening_grid, Table};

verus! {

/// The depth below which the search stays.
pub const MAX_DEPTH: u32 = 64;

/// The depth of the first search.
pub const FIRST_DEPTH: u32 = 3;

/// The time that one turn may take, in milliseconds.
pub const BUDGET_MILLIS: u128 = 3000;

/// `t` is one of the positions that a move of the bot leads to from `g`.
pub open spec fn is_reply(t: Table, g: Grid, bot: int) -> bool {
    t.bot() == bot && exists|i: int|
        0 <= i < legal_moves(g, bot).len() && t.grid() == #[trigger] reply(g, bot, i)
}

/// What a turn returns once the search to `depth` is complete: a position
/// that a move of the bot leads to, and the value of the root at that
/// depth, which is also the value of that position one level below.
pub open spec fn confirmed_at(t: Table, score: Score, g: Grid, bot: int, depth: nat) -> bool {
    &&& depth >= 1
    &&& is_reply(t, g, bot)
    &&& score.rank() == search_value(g, bot, depth, true)
    &&& score.rank() == search_value(t.grid(), bot, (depth - 1) as nat, false)
}

/// The value of the `i`-th move of the bot at the root, searched to
/// `below`.
pub open spec fn reply_value(g: Grid, bot: int, below: nat, i: int) -> int {
    search_value(reply(g, bot, i), bot, below, false)
}

/// The best value among the first `k` moves of `order`, and minus
/// infinity where `k` is 0: the lower end of the window in which the next
/// move is searched.
pub open spec fn running_best(g: Grid, bot: int, below: nat, order: Seq<int>, k: nat) -> int
    decreases k,
{
    if k == 0 {
        -top_rank()
    } else {
        let rest = running_best(g, bot, below, order, (k - 1) as nat);
        let value = reply_value(g, bot, below, order[k - 1]);
        if value > rest {
            value
        } else {
            rest
        }
    }
}

/// The ranks of the scores of the moves once the first `k` moves of
/// `order` are searched: each of them has what its search returned within
/// the window from the best value before it to plus infinity.
pub open spec fn scan_ranks(
    g: Grid,
    bot: int,
    below: nat,
    order: Seq<int>,
    k: nat,
    start: Seq<int>,
) -> Seq<int>
    decreases k,
{
    if k == 0 {
        start
    } else {
        scan_ranks(g, bot, below, order, (k - 1) as nat, start).update(
            order[k - 1],
            found_rank(
                reply(g, bot, order[k - 1]),
                bot,
                below,
                false,
                running_best(g, bot, below, order, (k - 1) as nat),
                top_rank(),
            ),
        )
    }
}

/// The move that is held as the best once the first `k` moves of `order`
/// are searched: the last that raised the best value; where none did,
/// the move `prior` that was held before, or the first of `order` if none
/// was held.
pub open spec fn scan_pick(
    g: Grid,
    bot: int,
    below: nat,
    order: Seq<int>,
    k: nat,
    prior: Option<int>,
) -> Option<int>
    decreases k,
{
    if k == 0 {
        prior
    } else {
        let before = scan_pick(g, bot, below, order, (k - 1) as nat, prior);
        if reply_value(g, bot, below, order[k - 1]) > running_best(
            g,
            bot,
            below,
            order,
            (k - 1) as nat,
        ) || before is None {
            Some(order[k - 1])
        } else {
            before
        }
    }
}

/// The ranks of the scores of the moves of the bot after the search of
/// the root to `depth`, in the order of the legal moves. Before the first
/// search every score is zero; each search takes the moves in the order
/// of the scores that the search before left.
pub open spec fn root_ranks(g: Grid, bot: int, depth: nat) -> Seq<int>
    decreases depth,
{
    let n = legal_moves(g, bot).len();
    if depth < FIRST_DEPTH {
        Seq::new(n, |i: int| 0int)
    } else {
        let before = root_ranks(g, bot, (depth - 1) as nat);
        scan_ranks(g, bot, (depth - 1) as nat, order_by_rank(before, n), n, before)
    }
}

/// The move that the search of the root to `depth` holds as the best when
/// it is complete, as its place among the legal moves.
pub open spec fn root_pick(g: Grid, bot: int, depth: nat) -> Option<int>
    decreases depth,
{
    let n = legal_moves(g, bot).len();
    if depth < FIRST_DEPTH {
        None
    } else {
        scan_pick(
            g,
            bot,
            (depth - 1) as nat,
            order_by_rank(root_ranks(g, bot, (depth - 1) as nat), n),
            n,
            root_pick(g, bot, (depth - 1) as nat),
        )
    }
}

/// `best` holds the position of the move `pick`, or nothing where `pick`
/// is none.
pub open spec fn holds_pick(best: Option<Table>, pick: Option<int>, g: Grid, bot: int) -> bool {
    match pick {
        None => best is None,
        Some(i) => 0 <= i < legal_moves(g, bot).len() && (best matches Some(t) && t.grid() == reply(
            g,
            bot,
            i,
        ) && t.bot() == bot),
    }
}

/// The best value so far is at least minus infinity and at least the
/// value of each move searched, and it is minus infinity or the value of
/// one of them.
pub proof fn lemma_running_best(g: Grid, bot: int, below: nat, order: Seq<int>, k: nat)
    ensures
        running_best(g, bot, below, order, k) >= -top_rank(),
        forall|j: int|
            0 <= j < k ==> running_best(g, bot, below, order, k) >= reply_value(
                g,
                bot,
                below,
                #[trigger] order[j],
            ),
        running_best(g, bot, below, order, k) == -top_rank() || exists|j: int|
            0 <= j < k && running_best(g, bot, below, order, k) == reply_value(
                g,
                bot,
                below,
                #[trigger] order[j],
            ),
    decreases k,
{
    if k > 0 {
        lemma_running_best(g, bot, below, order, (k - 1) as nat);
        let rest = running_best(g, bot, below, order, (k - 1) as nat);
        let value = reply_value(g, bot, below, order[k - 1]);
        if value > rest {
        } else if rest != -top_rank() {
            let j = choose|j: int|
                0 <= j < k - 1 && rest == reply_value(g, bot, below, #[trigger] order[j]);
            assert(running_best(g, bot, below, order, k) == reply_value(g, bot, below, order[j]));
        }
    }
}

/// Once a move is searched a move is held; it is `prior` or one of the
/// moves searched; and where the best value is above minus infinity, it
/// is the value of the move that is held.
pub proof fn lemma_scan_pick(
    g: Grid,
    bot: int,
    below: nat,
    order: Seq<int>,
    k: nat,
    prior: Option<int>,
)
    ensures
        k >= 1 ==> scan_pick(g, bot, below, order, k, prior) is Some,
        scan_pick(g, bot, below, order, k, prior) == prior || exists|j: int|
            0 <= j < k && scan_pick(g, bot, below, order, k, prior) == Some(#[trigger] order[j]),
        running_best(g, bot, below, order, k) > -top_rank() ==> (scan_pick(
            g,
            bot,
            below,
            order,
            k,
            prior,
        ) matches Some(i) && reply_value(g, bot, below, i) == running_best(g, bot, below, order, k)),
    decreases k,
{
    if k > 0 {
        lemma_scan_pick(g, bot, below, order, (k - 1) as nat, prior);
        lemma_running_best(g, bot, below, order, (k - 1) as nat);
        let before = scan_pick(g, bot, below, order, (k - 1) as nat, prior);
        let now = scan_pick(g, bot, below, order, k, prior);
        if now == Some(order[k - 1]) {
        } else if before != prior {
            let j = choose|j: int| 0 <= j < k - 1 && before == Some(#[trigger] order[j]);
            assert(now == Some(order[j]));
        }
    }
}

/// Where `order` lists every move of the bot, the best value after all of
/// them is the value of the root.
pub proof fn lemma_running_best_is_value(g: Grid, bot: int, depth: nat, order: Seq<int>)
    requires
        depth >= 1,
        !terminal(g, bot),
        order.len() == legal_moves(g, bot).len(),
        forall|k: int| 0 <= k < order.len() ==> 0 <= #[trigger] order[k] < order.len(),
        forall|i: int| 0 <= i < order.len() ==> order.contains(i),
    ensures
        running_best(g, bot, (depth - 1) as nat, order, order.len()) == search_value(
            g,
            bot,
            depth,
            true,
        ),
{
    let n = order.len();
    let below = (depth - 1) as nat;
    let best = running_best(g, bot, below, order, n);
    lemma_running_best(g, bot, below, order, n);
    assert(search_value(g, bot, depth, true) == best_reply(g, bot, below, true, n));
    assert forall|i: int| 0 <= i < n implies best >= search_value(
        #[trigger] reply(g, bot, i),
        bot,
        below,
        false,
    ) by {
        assert(order.contains(i));
        let j = choose|j: int| 0 <= j < order.len() && order[j] == i;
        assert(best >= reply_value(g, bot, below, order[j]));
    }
    lemma_best_reply_below(g, bot, below, n, best);
    if best != -top_rank() {
        let j = choose|j: int| 0 <= j < n && best == reply_value(g, bot, below, #[trigger] order[j]);
        lemma_best_reply_grows(g, bot, below, true, order[j] as nat, n);
    } else {
        lemma_best_reply_grows(g, bot, below, true, 0, n);
    }
}

/// A value that is at least the value of each of the first `n` replies
/// is at least the best of them.
proof fn lemma_best_reply_below(g: Grid, bot: int, depth: nat, n: nat, x: int)
    requires
        x >= -top_rank(),
        forall|i: int| 0 <= i < n ==> x >= search_value(#[trigger] reply(g, bot, i), bot, depth, false),
    ensures
        best_reply(g, bot, depth, true, n) <= x,
    decreases n,
{
    if n > 0 {
        lemma_best_reply_below(g, bot, depth, (n - 1) as nat, x);
        assert(x >= search_value(reply(g, bot, n - 1), bot, depth, false));
    }
}

/// The move that a complete search of the root holds is a move of the
/// bot, and its value one level below is the value of the root.
pub proof fn lemma_root_pick(g: Grid, bot: int, depth: nat)
    requires
        valid_grid(g),
        is_player(bot),
        !terminal(g, bot),
        depth >= FIRST_DEPTH,
    ensures
        root_pick(g, bot, depth) matches Some(i) && 0 <= i < legal_moves(g, bot).len()
            && reply_value(g, bot, (depth - 1) as nat, i) == search_value(g, bot, depth, true),
        root_ranks(g, bot, depth).len() == legal_moves(g, bot).len(),
    decreases depth,
{
    let n = legal_moves(g, bot).len();
    let below = (depth - 1) as nat;
    let before = root_ranks(g, bot, below);
    let order = order_by_rank(before, n);
    let prior = root_pick(g, bot, below);
    if depth > FIRST_DEPTH {
        lemma_root_pick(g, bot, below);
    }
    lemma_order_by_rank(before, n);
    lemma_scan_ranks_len(g, bot, below, order, n, before);
    lemma_scan_pick(g, bot, below, order, n, prior);
    lemma_running_best(g, bot, below, order, n);
    lemma_running_best_is_value(g, bot, depth, order);
    let pick = root_pick(g, bot, depth);
    assert(pick == scan_pick(g, bot, below, order, n, prior));
    let i = pick->Some_0;
    assert(0 <= i < n) by {
        if pick != prior {
            let j = choose|j: int| 0 <= j < n && pick == Some(#[trigger] order[j]);
        }
    }
    if running_best(g, bot, below, order, n) == -top_rank() {
        lemma_legal_moves(g, bot);
        let m = legal_moves(g, bot)[i];
        lemma_placed_valid(g, m.0 as int, m.1 as int, bot as i32);
        lemma_search_value_bounded(reply(g, bot, i), bot, below, false);
        lemma_best_reply_grows(g, bot, below, true, i as nat, n);
        assert(search_value(g, bot, depth, true) == best_reply(g, bot, below, true, n));
    }
}

/// What the search of the move `order[k]` does, told by the rank `found`
/// that it returned: the move raises the best value exactly where `found`
/// is above it, and then `found` is its value.
proof fn lemma_scan_step(
    g: Grid,
    bot: int,
    below: nat,
    order: Seq<int>,
    k: nat,
    start: Seq<int>,
    prior: Option<int>,
    found: int,
)
    requires
        valid_grid(g),
        is_player(bot),
        0 <= order[k as int] < legal_moves(g, bot).len(),
        found <= top_rank(),
        found == found_rank(
            reply(g, bot, order[k as int]),
            bot,
            below,
            false,
            running_best(g, bot, below, order, k),
            top_rank(),
        ),
    ensures
        running_best(g, bot, below, order, k + 1) == (if found > running_best(
            g,
            bot,
            below,
            order,
            k,
        ) {
            found
        } else {
            running_best(g, bot, below, order, k)
        }),
        scan_ranks(g, bot, below, order, k + 1, start) == scan_ranks(
            g,
            bot,
            below,
            order,
            k,
            start,
        ).update(order[k as int], found),
        scan_pick(g, bot, below, order, k + 1, prior) == (if found > running_best(
            g,
            bot,
            below,
            order,
            k,
        ) || scan_pick(g, bot, below, order, k, prior) is None {
            Some(order[k as int])
        } else {
            scan_pick(g, bot, below, order, k, prior)
        }),
{
    let i = order[k as int];
    let m = legal_moves(g, bot)[i];
    let low = running_best(g, bot, below, order, k);
    lemma_placed_valid(g, m.0 as int, m.1 as int, bot as i32);
    lemma_search_value_bounded(reply(g, bot, i), bot, below, false);
    lemma_running_best(g, bot, below, order, k);
    lemma_found_agrees(reply(g, bot, i), bot, below, false, low, top_rank());
    assert((found > low) == (reply_value(g, bot, below, i) > low));
    assert(found > low ==> found == reply_value(g, bot, below, i));
}

/// Searching moves changes scores and not how many there are.
pub proof fn lemma_scan_ranks_len(
    g: Grid,
    bot: int,
    below: nat,
    order: Seq<int>,
    k: nat,
    start: Seq<int>,
)
    requires
        forall|j: int| 0 <= j < k ==> 0 <= #[trigger] order[j] < start.len(),
    ensures
        scan_ranks(g, bot, below, order, k, start).len() == start.len(),
    decreases k,
{
    if k > 0 {
        lemma_scan_ranks_len(g, bot, below, order, (k - 1) as nat, start);
    }
}

/// Whether the rows and the sides make a position: eight rows of eight
/// cells that are empty or hold one disk, and two sides that are each
/// other's opponent.
pub fn valid_arguments(state: &Vec<Vec<i32>>, player: i32, bot: i32) -> (b: bool)
    ensures
        b == (valid_grid(grid_of(*state)) && is_player(player as int) && bot == -player),
{
    if !((player == BLACK || player == WHITE) && bot == -player) {
        return false;
    }
    if state.len() != 8 {
        return false;
    }
    let ghost g = grid_of(*state);
    let mut r: usize = 0;
    while r < 8
        invariant
            r <= 8,
            state@.len() == 8,
            g == grid_of(*state),
            forall|i: int| 0 <= i < r ==> (#[trigger] g[i]).len() == 8,
            forall|i: int, j: int|
                0 <= i < r && 0 <= j < 8 ==> {
                    let v = #[trigger] g[i][j];
                    v == EMPTY || v == BLACK || v == WHITE
                },
        decreases 8 - r,
    {
        assert(g[r as int] == state@[r as int]@);
        if state[r].len() != 8 {
            return false;
        }
        let mut c: usize = 0;
        while c < 8
            invariant
                c <= 8,
                r < 8,
                state@.len() == 8,
                state@[r as int]@.len() == 8,
                g == grid_of(*state),
                g[r as int] == state@[r as int]@,
                forall|j: int|
                    0 <= j < c ==> {
                        let v = #[trigger] g[r as int][j];
                        v == EMPTY || v == BLACK || v == WHITE
                    },
            decreases 8 - c,
        {
            let v = state[r][c];
            if !(v == EMPTY || v == BLACK || v == WHITE) {
                assert(!valid_grid(g)) by {
                    let w = g[r as int][c as int];
                }
                return false;
            }
            c += 1;
        }
        r += 1;
    }
    true
}

/// One search of the root to `depth`: each move of the bot, best score
/// of the search before first, is searched one level below, within the
/// window from the best value so far to plus infinity. Each move keeps
/// what its search returned as its new score. `best` takes each move that
/// raises the best value, and the first move where it held none. `None`
/// where the clock has passed `max_time`.
#[verifier::rlimit(40)]
fn search_root(
    table: &Table,
    depth: u32,
    max_time: u128,
    ordering: &mut Vec<Scored>,
    best: &mut Option<Table>,
    Ghost(prior): Ghost<Option<int>>,
    cache: &mut EvalCache,
) -> (r: Option<Score>)
    requires
        depth >= 1,
        moves_of(old(ordering)@) == legal_moves(table.grid(), table.bot() as int),
        holds_pick(*old(best), prior, table.grid(), table.bot() as int),
    ensures
        moves_of(final(ordering)@) == legal_moves(table.grid(), table.bot() as int),
        old(cache)@.submap_of(final(cache)@),
        max_time == u128::MAX ==> r is Some,
        r matches Some(alpha) ==> {
            let order = order_by_rank(ranks_of(old(ordering)@), old(ordering)@.len());
            let n = old(ordering)@.len();
            let g = table.grid();
            let b = table.bot() as int;
            let below = (depth - 1) as nat;
            &&& alpha.rank() == running_best(g, b, below, order, n)
            &&& ranks_of(final(ordering)@) == scan_ranks(
                g,
                b,
                below,
                order,
                n,
                ranks_of(old(ordering)@),
            )
            &&& holds_pick(*final(best), scan_pick(g, b, below, order, n, prior), g, b)
        },
{
    proof {
        use_type_invariant(table);
        lemma_order_by_rank(ranks_of(ordering@), ordering@.len());
        lemma_legal_moves(table.grid(), table.bot() as int);
        lemma_span_positive(0xffff_ffff);
    }
    let ghost g = table.grid();
    let ghost b = table.bot() as int;
    let ghost below = (depth - 1) as nat;
    let ghost entry = cache@;
    let ghost moves = legal_moves(g, b);
    let ghost start = ranks_of(ordering@);
    let ghost n = ordering@.len();
    let ghost line = order_by_rank(start, n);
    let order = priority_indices(ordering);
    let bot = table.bot();
    let mut low = Score::neg_infinity();
    let mut k: usize = 0;
    while k < order.len()
        invariant
            k <= order@.len(),
            depth >= 1,
            below == depth - 1,
            g == table.grid(),
            b == table.bot(),
            bot == b,
            is_player(b),
            valid_grid(g),
            moves == legal_moves(g, b),
            n == moves.len(),
            n == ordering@.len(),
            order@.len() == n,
            line == order_by_rank(start, n),
            forall|j: int| 0 <= j < n ==> #[trigger] order@[j] == line[j],
            forall|j: int| 0 <= j < n ==> 0 <= #[trigger] line[j] < n,
            forall|i: int|
                0 <= i < moves.len() ==> (#[trigger] moves[i]).0 < 8 && moves[i].1 < 8,
            moves_of(ordering@) == moves,
            ranks_of(ordering@) == scan_ranks(g, b, below, line, k as nat, start),
            holds_pick(*best, scan_pick(g, b, below, line, k as nat, prior), g, b),
            low.rank() == running_best(g, b, below, line, k as nat),
            top_rank() >= 1,
            entry == old(cache)@,
            entry.submap_of(cache@),
        decreases order@.len() - k,
    {
        let index = order[k];
        let (row, column) = ordering[index].0;
        proof {
            assert(moves_of(ordering@)[index as int] == ordering@[index as int].0);
            assert(index == line[k as int]);
        }
        let next_table = table.next_table(row, column, bot);
        if best.is_none() {
            *best = Some(next_table.clone());
        }
        let ghost before = cache@;
        let found = min_score(&next_table, depth - 1, low, Score::infinity(), max_time, cache);
        proof {
            vstd::map_lib::lemma_submap_of_trans(entry, before, cache@);
        }
        let current = match found {
            None => return None,
            Some(t) => t,
        };
        proof {
            use_type_invariant(&current);
            current.lemma_wf();
            lemma_scan_step(g, b, below, line, k as nat, start, prior, current.rank());
        }
        let ghost scores = ordering@;
        ordering.set(index, ((row, column), current));
        proof {
            assert(moves_of(ordering@) =~= moves_of(scores));
            assert(ranks_of(ordering@) =~= ranks_of(scores).update(index as int, current.rank()));
        }
        if current.gt(&low) {
            low = current;
            *best = Some(next_table.clone());
        }
        k += 1;
    }
    Some(low)
}

/// The best move found before the clock passes `max_time`, with the depth
/// at which it was last confirmed and its value there. Reads the clock
/// and goes on as [`search_at`].
pub fn search(table: &Table, max_time: u128, cache: &mut EvalCache) -> (r: (Table, u32, Score))
    requires
        !terminal(table.grid(), table.bot() as int),
    ensures
        max_time == 0 ==> r.1 == 0 && final(cache)@ == old(cache)@,
        r.1 == 0 ==> r.0.grid() == opening_grid() && r.2.is_neg_infinity(),
        r.1 != 0 ==> FIRST_DEPTH <= r.1 < MAX_DEPTH && holds_pick(
            Some(r.0),
            root_pick(table.grid(), table.bot() as int, r.1 as nat),
            table.grid(),
            table.bot() as int,
        ) && confirmed_at(r.0, r.2, table.grid(), table.bot() as int, r.1 as nat),
        forall|d: nat|
            FIRST_DEPTH <= d < r.1 ==> search_value(table.grid(), table.bot() as int, d, true)
                < top_rank(),
        old(cache)@.submap_of(final(cache)@),
{
    let now = now_millis();
    search_at(table, max_time, now, cache)
}

/// The depth of the next search of the root, once the search to `depth`
/// is complete with the value `alpha` and the clock reads `reading`: the
/// next depth; none where `alpha` is plus infinity, where the next depth
/// would reach [`MAX_DEPTH`], or where the clock has reached `max_time`.
pub fn next_depth(depth: u32, alpha: &Score, reading: u128, max_time: u128) -> (next: Option<u32>)
    requires
        depth < MAX_DEPTH,
    ensures
        next == (if alpha.is_infinity() || depth + 1 >= MAX_DEPTH || reading >= max_time {
            None::<u32>
        } else {
            Some((depth + 1) as u32)
        }),
{
    if alpha.is_infinity() || depth + 1 >= MAX_DEPTH || reading >= max_time {
        None
    } else {
        Some(depth + 1)
    }
}

/// [`search`] for the first clock reading `now`. The root is searched to
/// depth 3, then 4, and so on below 64, each time with the moves in the
/// order of their scores from the search before, while the clock reads
/// less than `max_time` before a search starts, as [`next_depth`] says. A
/// search that the deadline cuts short counts for nothing: the result is
/// that of the last search that was complete, which is the position of
/// the move that it held as the best, and the value of the root. A search
/// that finds plus infinity is the last, so that no depth below the one
/// returned has that value. With no complete search the result is the
/// opening position at depth 0, with minus infinity.
pub fn search_at(table: &Table, max_time: u128, now: u128, cache: &mut EvalCache) -> (r: (
    Table,
    u32,
    Score,
))
    requires
        !terminal(table.grid(), table.bot() as int),
    ensures
        now >= max_time ==> r.1 == 0 && final(cache)@ == old(cache)@,
        now < max_time && max_time == u128::MAX ==> r.1 != 0,
        r.1 == 0 ==> r.0.grid() == opening_grid() && r.2.is_neg_infinity(),
        r.1 != 0 ==> FIRST_DEPTH <= r.1 < MAX_DEPTH && holds_pick(
            Some(r.0),
            root_pick(table.grid(), table.bot() as int, r.1 as nat),
            table.grid(),
            table.bot() as int,
        ) && confirmed_at(r.0, r.2, table.grid(), table.bot() as int, r.1 as nat),
        forall|d: nat|
            FIRST_DEPTH <= d < r.1 ==> search_value(table.grid(), table.bot() as int, d, true)
                < top_rank(),
        old(cache)@.submap_of(final(cache)@),
{
    proof {
        use_type_invariant(table);
    }
    let ghost g = table.grid();
    let ghost b = table.bot() as int;
    let ghost entry = cache@;
    let mut best_found_table = Table::new();
    let mut best_found_alpha = Score::neg_infinity();
    let mut depth_best_table: Option<Table> = None;
    let mut confirmed: u32 = 0;
    let mut depth: u32 = FIRST_DEPTH;
    let moves = table.all_legal_moves(table.bot());
    let mut ordering: Vec<Scored> = Vec::new();
    let mut i: usize = 0;
    while i < moves.len()
        invariant
            i <= moves@.len(),
            ordering@.len() == i,
            moves_of(ordering@) == moves@.take(i as int),
            forall|j: int| 0 <= j < i ==> #[trigger] ranks_of(ordering@)[j] == 0,
        decreases moves@.len() - i,
    {
        assert(moves@.take(i + 1) =~= moves@.take(i as int).push(moves@[i as int]));
        let ghost scores = ordering@;
        ordering.push((moves[i], Score::whole(0)));
        assert(moves_of(ordering@) =~= moves@.take(i + 1));
        assert forall|j: int| 0 <= j < i + 1 implies #[trigger] ranks_of(ordering@)[j] == 0 by {
            if j < i {
                assert(ranks_of(scores)[j] == 0);
                assert(ordering@[j] == scores[j]);
            }
        }
        i += 1;
    }
    assert(moves@.take(i as int) =~= moves@);
    assert(ranks_of(ordering@) =~= root_ranks(g, b, (FIRST_DEPTH - 1) as nat));
    if now >= max_time {
        return (best_found_table, confirmed, best_found_alpha);
    }
    loop
        invariant
            now < max_time,
            FIRST_DEPTH <= depth < MAX_DEPTH,
            g == table.grid(),
            b == table.bot(),
            valid_grid(g),
            is_player(b),
            !terminal(g, b),
            moves_of(ordering@) == legal_moves(g, b),
            ranks_of(ordering@) == root_ranks(g, b, (depth - 1) as nat),
            holds_pick(depth_best_table, root_pick(g, b, (depth - 1) as nat), g, b),
            confirmed == 0 ==> depth == FIRST_DEPTH && best_found_table.grid() == opening_grid()
                && best_found_alpha.is_neg_infinity(),
            confirmed != 0 ==> confirmed == depth - 1 && holds_pick(
                Some(best_found_table),
                root_pick(g, b, confirmed as nat),
                g,
                b,
            ) && confirmed_at(best_found_table, best_found_alpha, g, b, confirmed as nat),
            forall|d: nat| FIRST_DEPTH <= d < depth ==> search_value(g, b, d, true) < top_rank(),
            entry == old(cache)@,
            entry.submap_of(cache@),
        decreases MAX_DEPTH - depth,
    {
        let ghost before = cache@;
        let ghost prior = root_pick(g, b, (depth - 1) as nat);
        let ghost line = order_by_rank(ranks_of(ordering@), ordering@.len());
        let found = search_root(
            table,
            depth,
            max_time,
            &mut ordering,
            &mut depth_best_table,
            Ghost(prior),
            cache,
        );
        proof {
            vstd::map_lib::lemma_submap_of_trans(entry, before, cache@);
        }
        let alpha = match found {
            None => return (best_found_table, confirmed, best_found_alpha),
            Some(t) => t,
        };
        proof {
            lemma_root_pick(g, b, depth as nat);
            lemma_order_by_rank(root_ranks(g, b, (depth - 1) as nat), legal_moves(g, b).len());
            lemma_running_best_is_value(g, b, depth as nat, line);
            use_type_invariant(&alpha);
            alpha.lemma_wf();
            lemma_span_positive(0xffff_ffff);
        }
        best_found_table = match &depth_best_table {
            Some(t) => t.clone(),
            None => best_found_table,
        };
        best_found_alpha = alpha;
        confirmed = depth;
        let reading = now_millis();
        match next_depth(depth, &alpha, reading, max_time) {
            None => return (best_found_table, confirmed, best_found_alpha),
            Some(next) => {
                depth = next;
            },
        }
    }
}

/// The turn of the bot on the position of `matrix`: the grid after the
/// move that the search chose, the depth at which the move was last
/// confirmed, and its value. The search runs to the deadline that
/// [`deadline_after`] gives for the first reading of the clock.
pub fn computer_turn(matrix: Vec<Vec<i32>>, player: i32, bot: i32, cache: &mut EvalCache) -> (r: (
    Vec<Vec<i32>>,
    u32,
    Score,
))
    requires
        valid_grid(grid_of(matrix)),
        is_player(player as int),
        bot == -player,
        !terminal(grid_of(matrix), bot as int),
    ensures
        r.1 == 0 ==> grid_of(r.0) == opening_grid() && r.2.is_neg_infinity(),
        r.1 != 0 ==> FIRST_DEPTH <= r.1 < MAX_DEPTH && r.2.rank() == search_value(
            grid_of(matrix),
            bot as int,
            r.1 as nat,
            true,
        ) && r.2.rank() == search_value(grid_of(r.0), bot as int, (r.1 - 1) as nat, false)
            && (root_pick(grid_of(matrix), bot as int, r.1 as nat) matches Some(i) && 0 <= i
            < legal_moves(grid_of(matrix), bot as int).len() && grid_of(r.0) == reply(
            grid_of(matrix),
            bot as int,
            i,
        )),
        forall|d: nat|
            FIRST_DEPTH <= d < r.1 ==> search_value(grid_of(matrix), bot as int, d, true)
                < top_rank(),
        old(cache)@.submap_of(final(cache)@),
{
    let operating_table = Table::from_arguments(matrix, player, bot);
    let now = now_millis();
    let max_time = deadline_after(now);
    let found = search(&operating_table, max_time, cache);
    (found.0.get_state_cloned(), found.1, found.2)
}

/// The deadline of a turn that starts at the time `now`:
/// [`BUDGET_MILLIS`] later, and the latest time there is where that would
/// lie beyond it.
pub fn deadline_after(now: u128) -> (max_time: u128)
    ensures
        max_time == (if now > u128::MAX - BUDGET_MILLIS {
            u128::MAX
        } else {
            (now + BUDGET_MILLIS) as u128
        }),
{
    if now > u128::MAX - BUDGET_MILLIS {
        u128::MAX
    } else {
        now + BUDGET_MILLIS
    }
}

} // verus!
