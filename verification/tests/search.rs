use bot::cache::EvalCache;
use bot::clock::{millis_or_latest, now_millis};
use bot::minimax::{max_score, max_score_at, min_score, min_score_at};
use bot::score::{max, min, Score};
use bot::table_state::Table;
use bot::{computer_turn, deadline_after, next_depth, search, search_at};

const B: i32 = 1;
const W: i32 = -1;
const NEVER: u128 = u128::MAX;

fn empty_rows() -> Vec<Vec<i32>> {
    vec![vec![0; 8]; 8]
}

/// Minimax without pruning.
fn plain(table: &Table, depth: u32, bot_moves: bool) -> Score {
    let who = if bot_moves { table.bot() } else { table.player() };
    if table.is_terminal(who) {
        return table.goal_value();
    }
    if depth == 0 {
        return table.heuristic_value();
    }
    let mut best = if bot_moves { Score::neg_infinity() } else { Score::infinity() };
    for next in table.next_tables(who) {
        let v = plain(&next, depth - 1, !bot_moves);
        best = if bot_moves { max(v, best) } else { min(v, best) };
    }
    best
}

fn positions() -> Vec<Table> {
    let mut out = vec![Table::new(), Table::from_arguments(Table::new().get_state_cloned(), W, B)];
    let mut table = Table::new();
    let mut who = B;
    for step in 0..12usize {
        let moves = table.all_legal_moves(who);
        if moves.is_empty() {
            break;
        }
        let (r, c) = moves[(step * 7 + 1) % moves.len()];
        table = table.next_table(r, c, who);
        out.push(table.clone());
        out.push(Table::from_arguments(table.get_state_cloned(), W, B));
        who = -who;
    }
    // a position near its end
    let mut rows = vec![vec![W; 8]; 8];
    rows[0][0] = 0;
    rows[0][1] = B;
    rows[7][7] = 0;
    rows[7][6] = B;
    rows[3][3] = 0;
    rows[3][4] = B;
    out.push(Table::from_arguments(rows.clone(), B, W));
    out.push(Table::from_arguments(rows, W, B));
    out
}

#[test]
fn pruning_finds_the_value_of_plain_minimax() {
    let mut cache = EvalCache::new();
    for table in positions() {
        for depth in 0..4u32 {
            let high = max_score(
                &table,
                depth,
                Score::neg_infinity(),
                Score::infinity(),
                NEVER,
                &mut cache,
            );
            assert!(high.unwrap().same(&plain(&table, depth, true)));
            let low = min_score(
                &table,
                depth,
                Score::neg_infinity(),
                Score::infinity(),
                NEVER,
                &mut cache,
            );
            assert!(low.unwrap().same(&plain(&table, depth, false)));
        }
    }
}

#[test]
fn a_narrow_window_tells_on_which_side_the_value_lies() {
    let mut cache = EvalCache::new();
    for table in positions() {
        let depth = 2;
        let value = plain(&table, depth, true);
        for (alpha, beta) in [
            (Score::whole(-500), Score::whole(500)),
            (Score::whole(0), Score::whole(1)),
            (Score::whole(2000), Score::whole(9000)),
            (Score::whole(-9000), Score::whole(-2000)),
            (Score::whole(10), Score::whole(10)),
        ] {
            for bot_moves in [true, false] {
                let value = if bot_moves { value } else { plain(&table, depth, false) };
                let found = if bot_moves {
                    max_score(&table, depth, alpha, beta, NEVER, &mut cache)
                } else {
                    min_score(&table, depth, alpha, beta, NEVER, &mut cache)
                }
                .unwrap();
                if value.le(&alpha) {
                    assert!(found.le(&alpha));
                }
                if value.ge(&beta) {
                    assert!(found.ge(&beta));
                }
                if value.gt(&alpha) && value.lt(&beta) {
                    assert!(found.same(&value));
                }
            }
        }
    }
}

#[test]
fn a_finished_game_gives_its_result_at_any_depth() {
    let mut cache = EvalCache::new();
    let mut rows = empty_rows();
    rows[0][0] = W;
    rows[5][5] = W;
    rows[2][2] = B;
    let table = Table::from_arguments(rows, B, W);
    for depth in [0, 1, 5] {
        let inf = Score::infinity();
        let neg = Score::neg_infinity();
        assert!(max_score(&table, depth, neg, inf, NEVER, &mut cache).unwrap().is_infinity());
        assert!(min_score(&table, depth, neg, inf, NEVER, &mut cache).unwrap().is_infinity());
        // whatever the window
        let (a, b) = (Score::whole(1), Score::whole(2));
        assert!(max_score(&table, depth, a, b, NEVER, &mut cache).unwrap().is_infinity());
    }
    assert_eq!(cache.len(), 0);
}

#[test]
fn depth_zero_gives_the_estimate() {
    let mut cache = EvalCache::new();
    let table = Table::new().next_table(2, 4, B);
    let (a, b) = (Score::whole(1), Score::whole(2));
    let s = max_score_at(&table, 0, a, b, 10, 10, &mut cache).unwrap();
    assert_eq!(s.numerator(), 129_792_000);
    assert_eq!(s.denominator(), 25_000);
    assert_eq!(cache.len(), 1);
    let s = min_score_at(&table, 0, a, b, 10, 3, &mut cache).unwrap();
    assert_eq!(s.numerator(), 129_792_000);
    assert_eq!(cache.len(), 1);
}

#[test]
fn a_passed_deadline_cancels() {
    let mut cache = EvalCache::new();
    let table = Table::new();
    let inf = Score::infinity();
    let neg = Score::neg_infinity();
    assert!(max_score_at(&table, 3, neg, inf, 10, 11, &mut cache).is_none());
    assert!(min_score_at(&table, 3, neg, inf, 10, 11, &mut cache).is_none());
    assert!(max_score_at(&table, 0, neg, inf, 0, u128::MAX, &mut cache).is_none());
    assert_eq!(cache.len(), 0);
    // the deadline of long ago, by the clock
    assert!(max_score(&table, 3, neg, inf, 1, &mut cache).is_none());
    assert!(min_score(&table, 3, neg, inf, 1, &mut cache).is_none());
    assert_eq!(cache.len(), 0);
    // at the deadline itself the search still runs
    assert!(max_score_at(&table, 0, neg, inf, 10, 10, &mut cache).is_some());
}

#[test]
fn a_search_without_time_confirms_nothing() {
    let mut cache = EvalCache::new();
    let table = Table::new().next_table(2, 4, B);
    for (max_time, now) in [(10, 10), (10, 11), (0, 0), (5, u128::MAX)] {
        let (best, depth, score) = search_at(&table, max_time, now, &mut cache);
        assert_eq!(depth, 0);
        assert!(score.is_neg_infinity());
        assert_eq!(best, Table::new());
        assert_eq!(cache.len(), 0);
    }
    let (best, depth, score) = search(&table, 1, &mut cache);
    assert_eq!(depth, 0);
    assert!(score.is_neg_infinity());
    assert_eq!(best.get_state_cloned(), Table::new().get_state_cloned());
}

#[test]
fn a_certain_win_ends_the_search() {
    // white to move takes the last black disk: black then has no move and
    // white has more disks
    let mut rows = empty_rows();
    rows[0][0] = W;
    rows[0][1] = B;
    let table = Table::from_arguments(rows, B, W);
    let mut cache = EvalCache::new();
    let (best, depth, score) = search_at(&table, NEVER, 0, &mut cache);
    assert_eq!(depth, 3);
    assert!(score.is_infinity());
    let mut expected = empty_rows();
    expected[0][0] = W;
    expected[0][1] = W;
    expected[0][2] = W;
    assert_eq!(best.get_state_cloned(), expected);
}

#[test]
fn of_two_moves_of_one_value_the_first_is_taken() {
    // white wins with (0, 2) and with (7, 5): black is left without a move
    let mut rows = empty_rows();
    rows[0][0] = W;
    rows[0][1] = B;
    rows[7][7] = W;
    rows[7][6] = B;
    let table = Table::from_arguments(rows.clone(), B, W);
    assert_eq!(table.all_legal_moves(W), vec![(0, 2), (7, 5)]);
    let mut cache = EvalCache::new();
    let (best, depth, score) = search_at(&table, NEVER, 0, &mut cache);
    assert_eq!(depth, 3);
    assert!(score.is_infinity());
    assert_eq!(best, table.next_table(0, 2, W));
}

#[test]
fn a_lost_position_still_gives_a_move() {
    // whatever white does, black takes every white disk with its answer
    let mut rows = empty_rows();
    rows[3][2] = B;
    rows[3][3] = B;
    rows[3][4] = W;
    rows[3][5] = B;
    let table = Table::from_arguments(rows, B, W);
    assert_eq!(table.all_legal_moves(W), vec![(3, 1), (3, 6)]);
    let mut cache = EvalCache::new();
    let (best, depth, score) = search_at(&table, now_millis() + 500, 0, &mut cache);
    assert!(depth >= 3 && depth < 64);
    assert!(score.is_neg_infinity());
    assert!(score.same(&plain(&table, 3, true)));
    // no move is better than another: the first one is held
    assert_eq!(best, table.next_table(3, 1, W));
}

#[test]
fn the_turn_returns_a_move_of_the_bot() {
    let table = Table::new();
    let mut cache = EvalCache::new();
    let (rows, depth, score) = computer_turn(table.get_state_cloned(), B, W, &mut cache);
    assert!(depth >= 3 && depth < 64);
    assert!(!score.is_neg_infinity());
    let replies: Vec<Vec<Vec<i32>>> =
        table.next_tables(W).iter().map(|t| t.get_state_cloned()).collect();
    assert!(replies.contains(&rows));
    assert!(cache.len() > 0);
    // the value is that of plain minimax at the depth that was confirmed,
    // for depths that plain minimax reaches in time
    if depth <= 5 {
        assert!(score.same(&plain(&table, depth, true)));
        let chosen = Table::from_arguments(rows, B, W);
        assert!(score.same(&plain(&chosen, depth - 1, false)));
    }
}

#[test]
fn the_clock_reads_milliseconds_since_the_epoch() {
    let first = now_millis();
    // later than the first of January 2020, and long before the end of time
    assert!(first > 1_577_836_800_000);
    assert!(first < u128::MAX / 2);
    let second = now_millis();
    assert!(second + 60_000 > first);
}

#[test]
fn a_clock_that_cannot_be_read_stands_at_the_latest_time() {
    assert_eq!(millis_or_latest(None), u128::MAX);
    assert_eq!(millis_or_latest(Some(0)), 0);
    assert_eq!(millis_or_latest(Some(1_577_836_800_000)), 1_577_836_800_000);
    // at that time every deadline before it has passed
    let mut cache = EvalCache::new();
    let table = Table::new();
    let late = millis_or_latest(None);
    let found =
        max_score_at(&table, 3, Score::neg_infinity(), Score::infinity(), 10, late, &mut cache);
    assert!(found.is_none());
    let (_, depth, _) = search_at(&table, u128::MAX - 1, late, &mut cache);
    assert_eq!(depth, 0);
}

#[test]
fn the_deadline_lies_the_budget_after_the_start() {
    assert_eq!(deadline_after(0), 3000);
    assert_eq!(deadline_after(1_577_836_800_000), 1_577_836_803_000);
    assert_eq!(deadline_after(u128::MAX - 3000), u128::MAX);
    assert_eq!(deadline_after(u128::MAX - 2999), u128::MAX);
    assert_eq!(deadline_after(u128::MAX - 3001), u128::MAX - 1);
    assert_eq!(deadline_after(u128::MAX), u128::MAX);
}

#[test]
fn the_search_deepens_while_there_is_time_and_no_certain_win() {
    let level = Score::whole(0);
    assert_eq!(next_depth(3, &level, 9, 10), Some(4));
    assert_eq!(next_depth(62, &Score::ratio(-7, 2), 0, 1), Some(63));
    assert_eq!(next_depth(5, &Score::neg_infinity(), 0, u128::MAX), Some(6));
    // the clock has reached the deadline
    assert_eq!(next_depth(3, &level, 10, 10), None);
    assert_eq!(next_depth(3, &level, 11, 10), None);
    assert_eq!(next_depth(3, &level, 0, 0), None);
    // the next depth would be the limit
    assert_eq!(next_depth(63, &level, 9, 10), None);
    // a certain win
    assert_eq!(next_depth(3, &Score::infinity(), 9, 10), None);
}

#[test]
fn a_search_with_the_deadline_at_zero_confirms_nothing() {
    let mut cache = EvalCache::new();
    let table = Table::new();
    let (best, depth, score) = search(&table, 0, &mut cache);
    assert_eq!(depth, 0);
    assert!(score.is_neg_infinity());
    assert_eq!(best, Table::new());
    assert_eq!(cache.len(), 0);
}

#[test]
fn the_turn_stops_at_the_first_depth_on_a_certain_win() {
    // the bot plays black: its only move (0, 2) leaves white without a
    // disk and without a move
    let mut rows = empty_rows();
    rows[0][0] = B;
    rows[0][1] = W;
    let mut cache = EvalCache::new();
    let (grid, depth, score) = computer_turn(rows, W, B, &mut cache);
    let mut expected = empty_rows();
    expected[0][0] = B;
    expected[0][1] = B;
    expected[0][2] = B;
    assert_eq!(grid, expected);
    assert_eq!(depth, 3);
    assert!(score.is_infinity());
}
