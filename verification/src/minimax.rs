//! The search: minimax to a given depth, with alpha-beta pruning and a
//! deadline.

use vstd::prelude::*;
use crate::cache::{is_estimate, EvalCache};
use crate::clock::now_millis;
use crate::heuristic::{goal_rank, heuristic_den, heuristic_num, lemma_heuristic_bounds};
use crate::rules::{
    is_player, legal_moves, lemma_placed_valid, placed, terminal, valid_grid, Grid,
};
use crate::score::{
    lemma_rank_bounded, lemma_span_positive, max, min, ratio_rank, top_rank, Score,
};
use crate::table_state::Table;

verus! {

/// The rank of the estimate of a position.
pub open spec fn heuristic_rank(g: Grid, bot: int) -> int {
    ratio_rank(heuristic_num(g, bot), heuristic_den(g, bot))
}

/// The grid after the `i`-th legal move of `who`.
pub open spec fn reply(g: Grid, who: int, i: int) -> Grid {
    let m = legal_moves(g, who)[i];
    placed(g, m.0 as int, m.1 as int, who as i32)
}

/// The side that moves: the bot where `bot_moves`, else its opponent.
pub open spec fn mover(bot: int, bot_moves: bool) -> int {
    if bot_moves {
        bot
    } else {
        -bot
    }
}

/// The value of a position searched to `depth` without pruning, as a
/// rank. Where the side to move has no move, the game counts as over and
/// the value is the result. At depth 0 it is the estimate. Else the bot
/// takes the largest value among its replies, its opponent the smallest.
pub open spec fn search_value(g: Grid, bot: int, depth: nat, bot_moves: bool) -> int
    decreases depth, 0nat,
{
    if terminal(g, mover(bot, bot_moves)) {
        goal_rank(g, bot)
    } else if depth == 0 {
        heuristic_rank(g, bot)
    } else {
        best_reply(
            g,
            bot,
            (depth - 1) as nat,
            bot_moves,
            legal_moves(g, mover(bot, bot_moves)).len(),
        )
    }
}

/// The best value, for the side that moves, among its first `n` replies,
/// each searched to `depth`. With no reply it is the worst value there
/// is for that side.
pub open spec fn best_reply(g: Grid, bot: int, depth: nat, bot_moves: bool, n: nat) -> int
    decreases depth, n + 1,
{
    if n == 0 {
        if bot_moves {
            -top_rank()
        } else {
            top_rank()
        }
    } else {
        let rest = best_reply(g, bot, depth, bot_moves, (n - 1) as nat);
        let value = search_value(reply(g, mover(bot, bot_moves), n - 1), bot, depth, !bot_moves);
        if bot_moves {
            if value > rest {
                value
            } else {
                rest
            }
        } else {
            if value < rest {
                value
            } else {
                rest
            }
        }
    }
}

/// What a search within the window from `alpha` to `beta` owes: a value
/// inside the window is found exactly; of one at or below `alpha` the
/// search says no more than that, and likewise of one at or above `beta`.
pub open spec fn agrees(found: int, value: int, alpha: int, beta: int) -> bool {
    &&& value <= alpha ==> found <= alpha
    &&& value >= beta ==> found >= beta
    &&& alpha < value < beta ==> found == value
}

/// The rank that a search within the window from `alpha` to `beta`
/// returns unless the deadline stops it. A finished game and depth 0 give
/// their value whatever the window is. Below that, the bot's search
/// returns `beta` where the window is empty or the value reaches `beta`,
/// and else the value or `alpha`, whichever is larger; the opponent's
/// search returns `alpha` where the window is empty or the value is down
/// at `alpha`, and else the value or `beta`, whichever is smaller.
pub open spec fn found_rank(
    g: Grid,
    bot: int,
    depth: nat,
    bot_moves: bool,
    alpha: int,
    beta: int,
) -> int {
    let value = search_value(g, bot, depth, bot_moves);
    if terminal(g, mover(bot, bot_moves)) || depth == 0 {
        value
    } else if bot_moves {
        if alpha >= beta || value >= beta {
            beta
        } else if value > alpha {
            value
        } else {
            alpha
        }
    } else {
        if alpha >= beta || value <= alpha {
            alpha
        } else if value < beta {
            value
        } else {
            beta
        }
    }
}

/// What a search returns agrees with the value of the position as far as
/// the window asks.
pub proof fn lemma_found_agrees(
    g: Grid,
    bot: int,
    depth: nat,
    bot_moves: bool,
    alpha: int,
    beta: int,
)
    ensures
        agrees(
            found_rank(g, bot, depth, bot_moves, alpha, beta),
            search_value(g, bot, depth, bot_moves),
            alpha,
            beta,
        ),
{
}

/// The rank of the estimate of a valid position lies strictly between
/// the ranks of the two infinities.
pub proof fn lemma_heuristic_rank_bounded(s: Score, g: Grid, bot: int)
    requires
        s.wf(),
        is_estimate(s, g, bot),
    ensures
        s.rank() == heuristic_rank(g, bot),
        -top_rank() < heuristic_rank(g, bot) < top_rank(),
{
    s.lemma_wf();
}

/// With more replies the best value gets no worse for the side that
/// moves, and it is at least as good as the value of each reply counted.
pub proof fn lemma_best_reply_grows(g: Grid, bot: int, depth: nat, bot_moves: bool, k: nat, n: nat)
    requires
        k <= n,
    ensures
        bot_moves ==> best_reply(g, bot, depth, bot_moves, k) <= best_reply(
            g,
            bot,
            depth,
            bot_moves,
            n,
        ),
        !bot_moves ==> best_reply(g, bot, depth, bot_moves, k) >= best_reply(
            g,
            bot,
            depth,
            bot_moves,
            n,
        ),
        k < n && bot_moves ==> search_value(reply(g, mover(bot, bot_moves), k as int), bot, depth, false)
            <= best_reply(g, bot, depth, bot_moves, n),
        k < n && !bot_moves ==> search_value(reply(g, mover(bot, bot_moves), k as int), bot, depth, true)
            >= best_reply(g, bot, depth, bot_moves, n),
    decreases n - k,
{
    if k < n {
        lemma_best_reply_grows(g, bot, depth, bot_moves, k + 1, n);
    }
}

/// The value of a search lies between the ranks of the two infinities.
pub proof fn lemma_search_value_bounded(g: Grid, bot: int, depth: nat, bot_moves: bool)
    requires
        valid_grid(g),
        is_player(bot),
    ensures
        -top_rank() <= search_value(g, bot, depth, bot_moves) <= top_rank(),
    decreases depth, 0nat,
{
    lemma_span_positive(0xffff_ffff);
    if terminal(g, mover(bot, bot_moves)) {
    } else if depth == 0 {
        lemma_heuristic_bounds(g, bot);
        lemma_rank_bounded(heuristic_num(g, bot), heuristic_den(g, bot));
    } else {
        lemma_best_reply_bounded(
            g,
            bot,
            (depth - 1) as nat,
            bot_moves,
            legal_moves(g, mover(bot, bot_moves)).len(),
        );
    }
}

/// The best value among replies lies between the ranks of the two
/// infinities.
pub proof fn lemma_best_reply_bounded(g: Grid, bot: int, depth: nat, bot_moves: bool, n: nat)
    requires
        valid_grid(g),
        is_player(bot),
        n <= legal_moves(g, mover(bot, bot_moves)).len(),
    ensures
        -top_rank() <= best_reply(g, bot, depth, bot_moves, n) <= top_rank(),
    decreases depth, n + 1,
{
    lemma_span_positive(0xffff_ffff);
    if n > 0 {
        let who = mover(bot, bot_moves);
        let m = legal_moves(g, who)[n - 1];
        lemma_best_reply_bounded(g, bot, depth, bot_moves, (n - 1) as nat);
        lemma_placed_valid(g, m.0 as int, m.1 as int, who as i32);
        lemma_search_value_bounded(reply(g, who, n - 1), bot, depth, !bot_moves);
    }
}

/// Pruning loses nothing: a search within the widest window, from minus
/// infinity to plus infinity, returns the value that the search without
/// pruning has.
pub proof fn lemma_widest_window(g: Grid, bot: int, depth: nat, bot_moves: bool)
    requires
        valid_grid(g),
        is_player(bot),
    ensures
        found_rank(g, bot, depth, bot_moves, -top_rank(), top_rank()) == search_value(
            g,
            bot,
            depth,
            bot_moves,
        ),
{
    lemma_span_positive(0xffff_ffff);
    lemma_search_value_bounded(g, bot, depth, bot_moves);
}

/// The side of the move `bot_moves` on a position of `table`.
fn side(table: &Table, bot_moves: bool) -> (who: i32)
    ensures
        who == mover(table.bot() as int, bot_moves),
        is_player(who as int),
{
    proof {
        use_type_invariant(table);
    }
    if bot_moves {
        table.bot()
    } else {
        table.player()
    }
}

/// The value of `table` for the bot when its opponent is to move,
/// searched to `depth` within the window from `alpha` to `beta`; `None`
/// where the clock has passed `max_time` at this position or at one below
/// it. Reads the clock and goes on as [`min_score_at`].
pub fn min_score(
    table: &Table,
    depth: u32,
    alpha: Score,
    beta: Score,
    max_time: u128,
    cache: &mut EvalCache,
) -> (r: Option<Score>)
    ensures
        r matches Some(s) ==> s.rank() == found_rank(
            table.grid(),
            table.bot() as int,
            depth as nat,
            false,
            alpha.rank(),
            beta.rank(),
        ),
        alpha.is_neg_infinity() && beta.is_infinity() ==> (r matches Some(s) ==> s.rank()
            == search_value(table.grid(), table.bot() as int, depth as nat, false)),
        max_time == u128::MAX ==> r is Some,
        old(cache)@.submap_of(final(cache)@),
    decreases depth, 1nat,
{
    let now = now_millis();
    let r = min_score_at(table, depth, alpha, beta, max_time, now, cache);
    proof {
        if let Some(s) = r {
            if alpha.is_neg_infinity() && beta.is_infinity() {
                use_type_invariant(table);
                use_type_invariant(&alpha);
                use_type_invariant(&beta);
                alpha.lemma_wf();
                beta.lemma_wf();
                lemma_widest_window(table.grid(), table.bot() as int, depth as nat, false);
            }
        }
    }
    r
}

/// The value of `table` for the bot when the bot is to move, searched to
/// `depth` within the window from `alpha` to `beta`; `None` where the
/// clock has passed `max_time` at this position or at one below it. Reads
/// the clock and goes on as [`max_score_at`].
pub fn max_score(
    table: &Table,
    depth: u32,
    alpha: Score,
    beta: Score,
    max_time: u128,
    cache: &mut EvalCache,
) -> (r: Option<Score>)
    ensures
        r matches Some(s) ==> s.rank() == found_rank(
            table.grid(),
            table.bot() as int,
            depth as nat,
            true,
            alpha.rank(),
            beta.rank(),
        ),
        alpha.is_neg_infinity() && beta.is_infinity() ==> (r matches Some(s) ==> s.rank()
            == search_value(table.grid(), table.bot() as int, depth as nat, true)),
        max_time == u128::MAX ==> r is Some,
        old(cache)@.submap_of(final(cache)@),
    decreases depth, 1nat,
{
    let now = now_millis();
    let r = max_score_at(table, depth, alpha, beta, max_time, now, cache);
    proof {
        if let Some(s) = r {
            if alpha.is_neg_infinity() && beta.is_infinity() {
                use_type_invariant(table);
                use_type_invariant(&alpha);
                use_type_invariant(&beta);
                alpha.lemma_wf();
                beta.lemma_wf();
                lemma_widest_window(table.grid(), table.bot() as int, depth as nat, true);
            }
        }
    }
    r
}

/// [`min_score`] for the clock reading `now`. A deadline that has passed
/// gives `None` at once. Else a position in which the opponent has no
/// move gives the result of the game, and depth 0 the estimate, both
/// whatever the window is. Else each reply of the opponent is searched in
/// turn, `beta` goes down to the smallest value found, and the search
/// stops with `alpha` as soon as `alpha >= beta`.
pub fn min_score_at(
    table: &Table,
    depth: u32,
    alpha: Score,
    beta: Score,
    max_time: u128,
    now: u128,
    cache: &mut EvalCache,
) -> (r: Option<Score>)
    ensures
        now > max_time ==> r is None && final(cache)@ == old(cache)@,
        max_time == u128::MAX ==> r is Some,
        now <= max_time && terminal(table.grid(), table.player() as int) ==> final(cache)@ == old(cache)@,
        now <= max_time && terminal(table.grid(), table.player() as int) ==> (r matches Some(s)
            && s.rank() == goal_rank(table.grid(), table.bot() as int)),
        now <= max_time && !terminal(table.grid(), table.player() as int) && depth == 0 ==> (
        r matches Some(s) && is_estimate(s, table.grid(), table.bot() as int)),
        r matches Some(s) ==> s.rank() == found_rank(
            table.grid(),
            table.bot() as int,
            depth as nat,
            false,
            alpha.rank(),
            beta.rank(),
        ),
        old(cache)@.submap_of(final(cache)@),
    decreases depth, 0nat,
{
    proof {
        use_type_invariant(table);
        use_type_invariant(&alpha);
        use_type_invariant(&beta);
        alpha.lemma_wf();
        beta.lemma_wf();
    }
    if now > max_time {
        return None;
    }
    let who = side(table, false);
    let ghost g = table.grid();
    let ghost b = table.bot() as int;
    if table.is_terminal(who) {
        return Some(table.goal_value());
    }
    if depth == 0 {
        let s = cache.get_or_compute(table);
        proof {
            use_type_invariant(&s);
            lemma_heuristic_rank_bounded(s, g, b);
        }
        return Some(s);
    }
    let tables = table.next_tables(who);
    let ghost n = tables@.len();
    let ghost below = (depth - 1) as nat;
    let ghost entry = cache@;
    let ghost alpha_rank = alpha.rank();
    let ghost start = beta.rank();
    let mut high = beta;
    let mut i: usize = 0;
    while i < tables.len()
        invariant
            i <= n,
            n == tables@.len(),
            n == legal_moves(g, -b).len(),
            n >= 1,
            depth >= 1,
            below == depth - 1,
            g == table.grid(),
            b == table.bot(),
            who == -b,
            who == table.player(),
            is_player(who as int),
            alpha_rank == alpha.rank(),
            forall|j: int|
                0 <= j < n ==> (#[trigger] tables@[j]).grid() == reply(g, -b, j) && tables@[j].bot()
                    == b,
            high.rank() == (if best_reply(g, b, below, false, i as nat) < start {
                best_reply(g, b, below, false, i as nat)
            } else {
                start
            }),
            i > 0 ==> alpha_rank < high.rank(),
            start == beta.rank(),
            start <= top_rank(),
            entry == old(cache)@,
            entry.submap_of(cache@),
            now <= max_time,
            !terminal(g, who as int),
        decreases n - i,
    {
        let ghost before = cache@;
        let found = max_score(&tables[i], depth - 1, alpha, high, max_time, cache);
        proof {
            vstd::map_lib::lemma_submap_of_trans(entry, before, cache@);
        }
        let current = match found {
            None => return None,
            Some(t) => t,
        };
        proof {
            let value = search_value(reply(g, -b, i as int), b, below, true);
            assert(tables@[i as int].grid() == reply(g, -b, i as int));
            lemma_found_agrees(reply(g, -b, i as int), b, below, true, alpha_rank, high.rank());
            assert(agrees(current.rank(), value, alpha_rank, high.rank()));
            assert(best_reply(g, b, below, false, (i + 1) as nat) == (if value < best_reply(
                g,
                b,
                below,
                false,
                i as nat,
            ) {
                value
            } else {
                best_reply(g, b, below, false, i as nat)
            }));
            assert(search_value(g, b, depth as nat, false) == best_reply(
                g,
                b,
                below,
                false,
                n as nat,
            ));
            lemma_best_reply_grows(g, b, below, false, i as nat, n as nat);
        }
        high = min(high, current);
        if alpha.ge(&high) {
            return Some(alpha);
        }
        i += 1;
    }
    Some(high)
}

/// [`max_score`] for the clock reading `now`. A deadline that has passed
/// gives `None` at once. Else a position in which the bot has no move
/// gives the result of the game, and depth 0 the estimate, both whatever
/// the window is. Else each reply of the bot is searched in turn, `alpha`
/// goes up to the largest value found, and the search stops with `beta`
/// as soon as `alpha >= beta`.
pub fn max_score_at(
    table: &Table,
    depth: u32,
    alpha: Score,
    beta: Score,
    max_time: u128,
    now: u128,
    cache: &mut EvalCache,
) -> (r: Option<Score>)
    ensures
        now > max_time ==> r is None && final(cache)@ == old(cache)@,
        max_time == u128::MAX ==> r is Some,
        now <= max_time && terminal(table.grid(), table.bot() as int) ==> final(cache)@ == old(cache)@,
        now <= max_time && terminal(table.grid(), table.bot() as int) ==> (r matches Some(s)
            && s.rank() == goal_rank(table.grid(), table.bot() as int)),
        now <= max_time && !terminal(table.grid(), table.bot() as int) && depth == 0 ==> (
        r matches Some(s) && is_estimate(s, table.grid(), table.bot() as int)),
        r matches Some(s) ==> s.rank() == found_rank(
            table.grid(),
            table.bot() as int,
            depth as nat,
            true,
            alpha.rank(),
            beta.rank(),
        ),
        old(cache)@.submap_of(final(cache)@),
    decreases depth, 0nat,
{
    proof {
        use_type_invariant(table);
        use_type_invariant(&alpha);
        use_type_invariant(&beta);
        alpha.lemma_wf();
        beta.lemma_wf();
    }
    if now > max_time {
        return None;
    }
    let who = side(table, true);
    let ghost g = table.grid();
    let ghost b = table.bot() as int;
    if table.is_terminal(who) {
        return Some(table.goal_value());
    }
    if depth == 0 {
        let s = cache.get_or_compute(table);
        proof {
            use_type_invariant(&s);
            lemma_heuristic_rank_bounded(s, g, b);
        }
        return Some(s);
    }
    let tables = table.next_tables(who);
    let ghost n = tables@.len();
    let ghost below = (depth - 1) as nat;
    let ghost entry = cache@;
    let ghost beta_rank = beta.rank();
    let ghost start = alpha.rank();
    let mut low = alpha;
    let mut i: usize = 0;
    while i < tables.len()
        invariant
            i <= n,
            n == tables@.len(),
            n == legal_moves(g, b).len(),
            n >= 1,
            depth >= 1,
            below == depth - 1,
            g == table.grid(),
            b == table.bot(),
            who == b,
            who == table.bot(),
            is_player(who as int),
            beta_rank == beta.rank(),
            forall|j: int|
                0 <= j < n ==> (#[trigger] tables@[j]).grid() == reply(g, b, j) && tables@[j].bot()
                    == b,
            low.rank() == (if best_reply(g, b, below, true, i as nat) > start {
                best_reply(g, b, below, true, i as nat)
            } else {
                start
            }),
            i > 0 ==> low.rank() < beta_rank,
            start == alpha.rank(),
            start >= -top_rank(),
            entry == old(cache)@,
            entry.submap_of(cache@),
            now <= max_time,
            !terminal(g, who as int),
        decreases n - i,
    {
        let ghost before = cache@;
        let found = min_score(&tables[i], depth - 1, low, beta, max_time, cache);
        proof {
            vstd::map_lib::lemma_submap_of_trans(entry, before, cache@);
        }
        let current = match found {
            None => return None,
            Some(t) => t,
        };
        proof {
            let value = search_value(reply(g, b, i as int), b, below, false);
            assert(tables@[i as int].grid() == reply(g, b, i as int));
            lemma_found_agrees(reply(g, b, i as int), b, below, false, low.rank(), beta_rank);
            assert(agrees(current.rank(), value, low.rank(), beta_rank));
            assert(best_reply(g, b, below, true, (i + 1) as nat) == (if value > best_reply(
                g,
                b,
                below,
                true,
                i as nat,
            ) {
                value
            } else {
                best_reply(g, b, below, true, i as nat)
            }));
            assert(search_value(g, b, depth as nat, true) == best_reply(
                g,
                b,
                below,
                true,
                n as nat,
            ));
            lemma_best_reply_grows(g, b, below, true, i as nat, n as nat);
        }
        low = max(low, current);
        if low.ge(&beta) {
            return Some(beta);
        }
        i += 1;
    }
    Some(low)
}

} // verus!
