use bot::table_state::Table;
use bot::valid_arguments;

const B: i32 = 1;
const W: i32 = -1;

fn empty_rows() -> Vec<Vec<i32>> {
    vec![vec![0; 8]; 8]
}

fn opening_rows() -> Vec<Vec<i32>> {
    let mut rows = empty_rows();
    rows[3][3] = B;
    rows[3][4] = W;
    rows[4][3] = W;
    rows[4][4] = B;
    rows
}

#[test]
fn new_is_the_opening_position() {
    let table = Table::new();
    assert_eq!(table.get_state_cloned(), opening_rows());
    assert_eq!(table.bot(), W);
    assert_eq!(table.player(), B);
}

#[test]
fn from_arguments_keeps_rows_and_sides() {
    let mut rows = opening_rows();
    rows[0][0] = B;
    let table = Table::from_arguments(rows.clone(), W, B);
    assert_eq!(table.get_state_cloned(), rows);
    assert_eq!(table.bot(), B);
    assert_eq!(table.player(), W);
    assert_eq!(table.cell(0, 0), B);
    assert_eq!(table.cell(3, 4), W);
    assert_eq!(table.cell(7, 7), Table::EMPTY);
    assert_eq!(Table::EMPTY, 0);
}

#[test]
fn clone_is_equal() {
    let table = Table::new();
    let copy = table.clone();
    assert_eq!(table, copy);
}

#[test]
fn opening_has_four_moves_for_each_side() {
    let table = Table::new();
    assert_eq!(table.all_legal_moves(B), vec![(2, 4), (3, 5), (4, 2), (5, 3)]);
    assert_eq!(table.all_legal_moves(W), vec![(2, 3), (3, 2), (4, 5), (5, 4)]);
}

#[test]
fn legality_needs_an_empty_cell_and_a_bracket() {
    let table = Table::new();
    assert!(table.is_field_legal(2, 4, B));
    assert!(!table.is_field_legal(2, 4, W));
    // occupied
    assert!(!table.is_field_legal(3, 3, B));
    assert!(!table.is_field_legal(3, 4, B));
    // no neighbour at all
    assert!(!table.is_field_legal(0, 0, B));
    // neighbour of the own colour only
    assert!(!table.is_field_legal(2, 3, B));
}

#[test]
fn a_run_that_leaves_the_board_is_no_bracket() {
    let mut rows = empty_rows();
    rows[0][1] = W;
    rows[0][2] = W;
    // black on (0, 3): the white run to the left ends at the edge
    let table = Table::from_arguments(rows.clone(), B, W);
    assert!(!table.is_field_legal(0, 3, B));
    // with a black disk on (0, 0) it is closed
    rows[0][0] = B;
    let table = Table::from_arguments(rows, B, W);
    assert!(table.is_field_legal(0, 3, B));
}

#[test]
fn a_gap_breaks_the_bracket() {
    let mut rows = empty_rows();
    rows[4][1] = W;
    rows[4][3] = B;
    let table = Table::from_arguments(rows, B, W);
    // (4, 0): white on (4, 1), empty (4, 2), black (4, 3)
    assert!(!table.is_field_legal(4, 0, B));
}

#[test]
fn a_move_turns_the_bracketed_disk() {
    let table = Table::new();
    let next = table.next_table(2, 4, B);
    let mut expected = opening_rows();
    expected[2][4] = B;
    expected[3][4] = B;
    assert_eq!(next.get_state_cloned(), expected);
    assert_eq!(next.bot(), table.bot());
    assert_eq!(next.player(), table.player());
    // the source is unchanged
    assert_eq!(table.get_state_cloned(), opening_rows());
}

#[test]
fn a_move_turns_every_bracketed_direction_and_no_other() {
    let mut rows = empty_rows();
    // to the right of (3, 0): two white, then black
    rows[3][1] = W;
    rows[3][2] = W;
    rows[3][3] = B;
    // below (3, 0): white, then black
    rows[4][0] = W;
    rows[5][0] = B;
    // on the diagonal down right: white, white, then the edge of the run is empty
    rows[4][1] = W;
    rows[5][2] = W;
    // above: white up to the edge
    rows[2][0] = W;
    rows[1][0] = W;
    rows[0][0] = W;
    let table = Table::from_arguments(rows.clone(), W, B);
    assert!(table.is_field_legal(3, 0, B));
    let next = table.next_table(3, 0, B);
    let mut expected = rows;
    expected[3][0] = B;
    expected[3][1] = B;
    expected[3][2] = B;
    expected[4][0] = B;
    assert_eq!(next.get_state_cloned(), expected);
}

#[test]
fn a_move_that_brackets_nothing_changes_nothing() {
    let table = Table::new();
    let next = table.next_table(0, 0, B);
    assert_eq!(next.get_state_cloned(), opening_rows());
    assert_eq!(next, table);
}

#[test]
fn next_tables_follow_the_moves_in_order() {
    let table = Table::new();
    let moves = table.all_legal_moves(W);
    let tables = table.next_tables(W);
    assert_eq!(tables.len(), moves.len());
    for (i, (row, column)) in moves.iter().enumerate() {
        assert_eq!(tables[i], table.next_table(*row, *column, W));
    }
}

#[test]
fn terminal_when_the_side_has_no_move() {
    let table = Table::new();
    assert!(!table.is_terminal(B));
    assert!(!table.is_terminal(W));
    let mut rows = empty_rows();
    rows[0][0] = B;
    rows[0][1] = W;
    // white can take (0, 2)? no: it needs a white disk behind a black run
    let table = Table::from_arguments(rows, W, B);
    assert!(table.is_terminal(W));
    // black can move to (0, 2): the other side's stop does not end the game for it
    assert!(!table.is_terminal(B));
    assert_eq!(table.all_legal_moves(B), vec![(0, 2)]);
}

#[test]
fn an_empty_board_is_terminal_for_both() {
    let table = Table::from_arguments(empty_rows(), B, W);
    assert!(table.is_terminal(B));
    assert!(table.is_terminal(W));
    assert!(table.all_legal_moves(B).is_empty());
    assert!(table.next_tables(W).is_empty());
}

#[test]
fn text_of_the_opening_position() {
    let table = Table::new();
    let rows = opening_rows();
    assert_eq!(table.to_string(), format!("{:?}", rows));
    assert_eq!(
        table.to_string(),
        "[[0, 0, 0, 0, 0, 0, 0, 0], [0, 0, 0, 0, 0, 0, 0, 0], [0, 0, 0, 0, 0, 0, 0, 0], \
         [0, 0, 0, 1, -1, 0, 0, 0], [0, 0, 0, -1, 1, 0, 0, 0], [0, 0, 0, 0, 0, 0, 0, 0], \
         [0, 0, 0, 0, 0, 0, 0, 0], [0, 0, 0, 0, 0, 0, 0, 0]]"
    );
}

#[test]
fn arguments_are_told_apart() {
    assert!(valid_arguments(&opening_rows(), B, W));
    assert!(valid_arguments(&opening_rows(), W, B));
    assert!(!valid_arguments(&opening_rows(), B, B));
    assert!(!valid_arguments(&opening_rows(), 0, 0));
    assert!(!valid_arguments(&opening_rows(), 2, -2));
    let mut rows = opening_rows();
    rows[7][7] = 2;
    assert!(!valid_arguments(&rows, B, W));
    let mut rows = opening_rows();
    rows.pop();
    assert!(!valid_arguments(&rows, B, W));
    let mut rows = opening_rows();
    rows[2].push(0);
    assert!(!valid_arguments(&rows, B, W));
}

#[test]
fn keys_tell_positions_apart() {
    let a = Table::new();
    let b = a.next_table(2, 4, B);
    let c = Table::from_arguments(opening_rows(), W, B);
    assert_eq!(a.key(), Table::new().key());
    assert_ne!(a.key(), b.key());
    assert_ne!(a.key(), c.key());
    // the empty board with the bot on white: 64 digits 1 in base 3, doubled
    let empty = Table::from_arguments(empty_rows(), B, W);
    let mut code: u128 = 0;
    for _ in 0..64 {
        code = 3 * code + 1;
    }
    assert_eq!(empty.key(), 2 * code);
}
