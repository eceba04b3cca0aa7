use bot::cache::EvalCache;
use bot::score::Score;
use bot::table_state::Table;

const B: i32 = 1;
const W: i32 = -1;

fn empty_rows() -> Vec<Vec<i32>> {
    vec![vec![0; 8]; 8]
}

fn value(s: &Score) -> f64 {
    if s.is_infinity() {
        f64::INFINITY
    } else if s.is_neg_infinity() {
        f64::NEG_INFINITY
    } else {
        s.numerator() as f64 / s.denominator() as f64
    }
}

/// The estimate in floating point, term by term.
fn estimate(table: &Table) -> f64 {
    let weights = [
        [20.0, -3.0, 11.0, 8.0, 8.0, 11.0, -3.0, 20.0],
        [-3.0, -7.0, -4.0, 1.0, 1.0, -4.0, -7.0, -3.0],
        [11.0, -4.0, 2.0, 2.0, 2.0, 2.0, -4.0, 11.0],
        [8.0, 1.0, 2.0, -3.0, -3.0, 2.0, 1.0, 8.0],
        [8.0, 1.0, 2.0, -3.0, -3.0, 2.0, 1.0, 8.0],
        [11.0, -4.0, 2.0, 2.0, 2.0, 2.0, -4.0, 11.0],
        [-3.0, -7.0, -4.0, 1.0, 1.0, -4.0, -7.0, -3.0],
        [20.0, -3.0, 11.0, 8.0, 8.0, 11.0, -3.0, 20.0],
    ];
    let state = table.get_state_cloned();
    let bot = table.bot();
    let player = table.player();
    let lead = |a: f64, b: f64| {
        if a > b {
            100.0 * a / (a + b)
        } else if b > a {
            -(100.0 * b) / (a + b)
        } else {
            0.0
        }
    };
    let mut field = 0.0;
    let (mut bot_disks, mut player_disks) = (0.0, 0.0);
    let (mut bot_open, mut player_open) = (0.0, 0.0);
    for i in 0..8usize {
        for j in 0..8usize {
            if state[i][j] == bot {
                field += weights[i][j];
                bot_disks += 1.0;
            } else if state[i][j] == player {
                field -= weights[i][j];
                player_disks += 1.0;
            }
            if state[i][j] != 0 {
                let mut open = false;
                for dx in -1i32..=1 {
                    for dy in -1i32..=1 {
                        let (x, y) = (i as i32 + dx, j as i32 + dy);
                        if (dx != 0 || dy != 0) && (0..8).contains(&x) && (0..8).contains(&y) {
                            open = open || state[x as usize][y as usize] == 0;
                        }
                    }
                }
                if open && state[i][j] == bot {
                    bot_open += 1.0;
                } else if open {
                    player_open += 1.0;
                }
            }
        }
    }
    let held = |r: usize, c: usize, who: i32| if state[r][c] == who { 1.0 } else { 0.0 };
    let corner_cells = [(0, 0, 1, 1), (0, 7, 1, 6), (7, 0, 6, 1), (7, 7, 6, 6)];
    let (mut corners, mut near) = (0.0, 0.0);
    for (r, c, nr, nc) in corner_cells {
        corners += held(r, c, bot) - held(r, c, player);
        if state[r][c] == 0 {
            near += held(r, nc, bot) + held(nr, nc, bot) + held(nr, c, bot);
            near -= held(r, nc, player) + held(nr, nc, player) + held(nr, c, player);
        }
    }
    let bot_moves = table.all_legal_moves(bot).len() as f64;
    let player_moves = table.all_legal_moves(player).len() as f64;
    10.0 * lead(bot_disks, player_disks) + 801.724 * (25.0 * corners)
        + 382.026 * (-12.5 * near)
        + 78.922 * lead(bot_moves, player_moves)
        + 74.396 * -lead(bot_open, player_open)
        + 10.0 * field
}

fn close(a: f64, b: f64) -> bool {
    (a - b).abs() <= 1e-9 * (1.0 + a.abs().max(b.abs()))
}

/// Positions reached from the opening by playing the first legal move of
/// each side in turn, and the third, and so on.
fn sample_positions() -> Vec<Table> {
    let mut out = vec![Table::new()];
    for pick in 0..4usize {
        let mut table = Table::new();
        let mut who = B;
        for _ in 0..40 {
            let moves = table.all_legal_moves(who);
            if moves.is_empty() {
                break;
            }
            let (r, c) = moves[pick % moves.len()];
            table = table.next_table(r, c, who);
            out.push(table.clone());
            out.push(Table::from_arguments(table.get_state_cloned(), W, B));
            who = -who;
        }
    }
    out
}

#[test]
fn estimate_of_the_opening_is_zero() {
    let s = Table::new().heuristic_value();
    assert!(s.is_finite());
    assert_eq!(s.numerator(), 0);
    assert_eq!(s.denominator(), 1000);
    assert!(s.same(&Score::whole(0)));
}

#[test]
fn estimate_after_the_first_move() {
    // black has moved to (2, 4); the bot is white
    let table = Table::new().next_table(2, 4, B);
    let s = table.heuristic_value();
    // disks 1 against 4: -80; moves 3 against 3: 0; disks next to an empty
    // cell 1 against 4: +80; cell weights -3 against -7: 4
    // 10 * -80 + 74.396 * 80 + 10 * 4 = 5191.68
    assert_eq!(s.numerator(), 129_792_000);
    assert_eq!(s.denominator(), 25_000);
    assert!(s.same(&Score::ratio(519_168, 100)));
    assert!(close(value(&s), 5191.68));
    // for the other side the estimate is the opposite
    let other = Table::from_arguments(table.get_state_cloned(), W, B).heuristic_value();
    assert_eq!(other.numerator(), -129_792_000);
    assert_eq!(other.denominator(), 25_000);
}

#[test]
fn estimate_counts_corners_and_their_neighbours() {
    let mut rows = empty_rows();
    rows[0][0] = W;
    rows[7][6] = W;
    rows[6][6] = B;
    let table = Table::from_arguments(rows, B, W);
    let s = table.heuristic_value();
    // disks 2 against 1: 100 * 2 / 3; moves 1 against 0: 100;
    // disks next to an empty cell 2 against 1: -(100 * 2 / 3);
    // one corner: 25; next to the empty corner (7, 7): one each, 0;
    // weights 20 - 3 - (-7) = 24
    // 10 * 66.67 + 801.724 * 25 + 78.922 * 100 - 74.396 * 66.67 + 10 * 24
    assert_eq!(table.all_legal_moves(W), vec![(5, 6)]);
    assert!(table.all_legal_moves(B).is_empty());
    assert_eq!(s.denominator(), 9000);
    assert_eq!(s.numerator(), 214_940_100);
    assert_eq!(
        s.numerator(),
        10_000 * 200 * 3 + 78_922 * 100 * 9 - 74_396 * 200 * 3 + (20_043_100 + 240_000) * 9
    );
    assert!(close(value(&s), estimate(&table)));
}

#[test]
fn estimate_is_the_weighted_sum() {
    let positions = sample_positions();
    assert!(positions.len() > 50);
    for table in positions {
        let s = table.heuristic_value();
        assert!(s.is_finite());
        assert!(close(value(&s), estimate(&table)), "{} {}", value(&s), estimate(&table));
    }
}

#[test]
fn goal_value_is_the_result() {
    let mut rows = empty_rows();
    rows[0][0] = W;
    rows[0][1] = W;
    rows[0][2] = B;
    let white = Table::from_arguments(rows.clone(), B, W);
    let black = Table::from_arguments(rows.clone(), W, B);
    assert!(white.goal_value().is_infinity());
    assert!(black.goal_value().is_neg_infinity());
    rows[0][3] = B;
    let level = Table::from_arguments(rows, B, W);
    let s = level.goal_value();
    assert!(s.is_finite());
    assert_eq!(s.numerator(), 0);
    assert_eq!(s.denominator(), 1);
    assert_eq!(value(&s), 0.0);
    assert!(Table::new().goal_value().same(&Score::whole(0)));
    assert!(Table::from_arguments(empty_rows(), B, W).goal_value().same(&Score::whole(0)));
}

#[test]
fn cache_returns_the_estimate_and_keeps_it() {
    let mut cache = EvalCache::new();
    assert_eq!(cache.len(), 0);
    let table = Table::new().next_table(2, 4, B);
    let direct = table.heuristic_value();
    let first = cache.get_or_compute(&table);
    assert_eq!(cache.len(), 1);
    let second = cache.get_or_compute(&table);
    assert_eq!(cache.len(), 1);
    for s in [first, second] {
        assert_eq!(s.numerator(), direct.numerator());
        assert_eq!(s.denominator(), direct.denominator());
    }
    // an equal position built anew is found as well
    let again = Table::from_arguments(table.get_state_cloned(), table.player(), table.bot());
    let third = cache.get_or_compute(&again);
    assert_eq!(cache.len(), 1);
    assert_eq!(third.numerator(), 129_792_000);
    // the same grid for the other side is another position
    let other = Table::from_arguments(table.get_state_cloned(), table.bot(), table.player());
    let fourth = cache.get_or_compute(&other);
    assert_eq!(cache.len(), 2);
    assert_eq!(fourth.numerator(), -129_792_000);
}

#[test]
fn cache_agrees_with_the_estimate_everywhere() {
    let mut cache = EvalCache::new();
    for table in sample_positions() {
        let direct = table.heuristic_value();
        let before = cache.len();
        let cached = cache.get_or_compute(&table);
        assert!(cache.len() == before || cache.len() == before + 1);
        assert_eq!(cached.numerator(), direct.numerator());
        assert_eq!(cached.denominator(), direct.denominator());
        let size = cache.len();
        let again = cache.get_or_compute(&table);
        assert_eq!(cache.len(), size);
        assert_eq!(again.numerator(), direct.numerator());
        assert_eq!(again.denominator(), direct.denominator());
    }
}
