use game::board::{Column, ConnectFour, Player};
use game::heuristic::{
    efield_counting, evaluation_field, fill_in_dead_cells, first_win_in_column, positional_counts,
    tabu_rows, Cell,
};

fn board(cols: &[&str]) -> ConnectFour {
    let mut g = ConnectFour::new();
    for (i, c) in cols.iter().enumerate() {
        for ch in c.chars() {
            let p = match ch {
                'x' => Player::Black,
                'o' => Player::White,
                _ => Player::Gray,
            };
            let _ = g.drop_stone(&p, Column::from_usize(i));
        }
    }
    g
}

fn empty_grid() -> Vec<Vec<Cell>> {
    vec![vec![Cell::N; 6]; 7]
}

#[test]
fn counting_along_a_run() {
    let mut ef = empty_grid();
    assert_eq!(efield_counting(&ef, vec![2, 1, 0], vec![0, 0, 0]), ((3, 0, 3), (3, 0, 3)));
    ef[2][0] = Cell::M;
    ef[1][0] = Cell::O;
    assert_eq!(efield_counting(&ef, vec![2, 1, 0], vec![0, 0, 0]), ((1, 1, 0), (0, 0, 0)));
    ef[1][0] = Cell::D;
    ef[2][0] = Cell::N;
    ef[0][0] = Cell::M;
    // the dead cell ends the run
    assert_eq!(efield_counting(&ef, vec![2, 1, 0], vec![0, 0, 0]), ((1, 0, 1), (1, 0, 1)));
    // the shorter list decides how far the run goes
    assert_eq!(efield_counting(&ef, vec![3, 4, 5], vec![0]), ((1, 0, 1), (1, 0, 1)));
    assert_eq!(efield_counting(&ef, vec![], vec![0, 1]), ((0, 0, 0), (0, 0, 0)));
}

#[test]
fn the_board_from_each_side() {
    let g = board(&["xo", ":"]);
    let ef = evaluation_field(&g, Player::Black);
    assert_eq!(ef[0][0], Cell::M);
    assert_eq!(ef[0][1], Cell::O);
    assert_eq!(ef[1][0], Cell::D);
    assert_eq!(ef[0][2], Cell::N);
    assert_eq!(ef.len(), 7);
    let ef = evaluation_field(&g, Player::White);
    assert_eq!(ef[0][0], Cell::O);
    assert_eq!(ef[0][1], Cell::M);
    let ef = evaluation_field(&g, Player::Gray);
    assert_eq!(ef[0][0], Cell::D);
    assert_eq!(ef[6][5], Cell::N);
}

#[test]
fn forced_columns() {
    // black stones on row one in columns one to three, over gray ones
    let mut g = board(&[":x", ":x", ":x"]);
    let before = g.state().clone();
    assert_eq!(first_win_in_column(&mut g, 3, Player::White), Some(2));
    assert_eq!(first_win_in_column(&mut g, 3, Player::Black), None);
    let rows = tabu_rows(&mut g, Player::White);
    assert_eq!(rows.len(), 7);
    assert_eq!(rows[3].column, Column::Four);
    assert_eq!(rows[3].mine, Some(1));
    assert_eq!(rows[3].theirs, None);
    let rows = tabu_rows(&mut g, Player::Black);
    assert_eq!(rows[3].mine, None);
    assert_eq!(rows[3].theirs, Some(1));
    assert_eq!(rows[0].mine, None);
    assert_eq!(*g.state(), before);
}

#[test]
fn cells_above_a_mutual_win_are_dead() {
    let mut g = board(&["o", "o", "o", "", "x", "x", "x"]);
    let before = g.state().clone();
    let ef = evaluation_field(&g, Player::White);
    let ef = fill_in_dead_cells(&mut g, ef);
    assert_eq!(*g.state(), before);
    assert_eq!(ef[3][0], Cell::N);
    for k in 1..6 {
        assert_eq!(ef[3][k], Cell::D);
    }
    assert_eq!(ef[0][0], Cell::M);
    assert_eq!(ef[4][0], Cell::O);
    assert_eq!(ef[0][1], Cell::N);
    assert_eq!(ef[6][5], Cell::N);
}

#[test]
fn counts_around_a_cell() {
    let ef = empty_grid();
    let a = ((3, 0, 3), (3, 0, 3));
    let z = ((0, 0, 0), (0, 0, 0));
    assert_eq!(positional_counts(3, 0, &ef), vec![a, a, z, a, a, z, z, a]);
    let t = ((2, 0, 2), (2, 0, 2));
    let o = ((1, 0, 1), (1, 0, 1));
    // next to the left wall and one row below the top
    assert_eq!(positional_counts(1, 4, &ef), vec![o, a, o, o, o, a, a, o]);
    assert_eq!(positional_counts(6, 2, &ef)[0], a);
    assert_eq!(positional_counts(6, 2, &ef)[6], t);
}
