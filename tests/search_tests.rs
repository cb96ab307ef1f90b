use game::board::{Column, ConnectFour, Player, Score};
use game::search::find_best_move;

#[test]
fn recognizes_a_winner() {
    let white = Player::White;
    let mut game = ConnectFour::new();
    for _ in 0..3 {
        assert_eq!(game.drop_stone(&white, Column::Six), Ok(Score::Undecided));
    }
    let before = game.state().clone();
    let (mv, score) = find_best_move(&mut game, &white, 0);
    assert_eq!(mv, Some(Column::Six));
    assert_eq!(score, Some(Score::Won(0)));
    assert_eq!(*game.state(), before);
}

#[test]
fn is_aware_of_danger() {
    let black = Player::Black;
    let mut game = ConnectFour::new();
    for _ in 0..3 {
        assert_eq!(game.drop_stone(&black, Column::Six), Ok(Score::Undecided));
    }
    let (mv, score) = find_best_move(&mut game, &Player::White, 1);
    assert_eq!(score, Some(Score::Undecided));
    assert_eq!(mv, Some(Column::Six));
}

#[test]
fn blocked_stack_is_not_the_best_move() {
    // three black stones in column four, capped by a white one
    let mut game = ConnectFour::new();
    for _ in 0..3 {
        let _ = game.drop_stone(&Player::Black, Column::Four);
    }
    let _ = game.drop_stone(&Player::White, Column::Four);
    let (mv, score) = find_best_move(&mut game, &Player::Black, 2);
    assert_ne!(mv, Some(Column::Four));
    assert_eq!(score, Some(Score::Undecided));
}

#[test]
fn a_forced_loss_is_reported_with_its_distance() {
    // white threatens two columns at once on the bottom row: _ o o o _ ...
    let mut game = ConnectFour::new();
    for c in [Column::Two, Column::Three, Column::Four] {
        let _ = game.drop_stone(&Player::White, c);
    }
    // black to move cannot stop both ends
    let (mv, score) = find_best_move(&mut game, &Player::Black, 1);
    assert!(mv.is_some());
    assert_eq!(score, Some(Score::Lost(1)));
}

#[test]
fn no_moves_on_a_full_board() {
    let mut cf = ConnectFour::new();
    let cols = ["oooxxx", "xoxoxo", "xxooxx", "oxoxox", "oooxxx", "xxxooo", "ooxxoo"];
    for (c, col) in cols.iter().enumerate() {
        for ch in col.chars() {
            let p = if ch == 'x' { Player::Black } else { Player::White };
            let _ = cf.drop_stone(&p, Column::from_usize(c));
        }
    }
    assert_eq!(find_best_move(&mut cf, &Player::Black, 3), (None, None));
}

#[test]
fn naive_strategy_searches_the_same() {
    let mut game = ConnectFour::new();
    for _ in 0..3 {
        let _ = game.drop_stone(&Player::Black, Column::Two);
    }
    let s = game::search::NaiveStrategy {};
    assert_eq!(s.find_best_move(&mut game, &Player::Black, 1), (Some(Column::Two), Some(Score::Won(0))));
    assert_eq!(s.find_best_move(&mut game, &Player::White, 1), (Some(Column::Two), Some(Score::Undecided)));
}

fn plan(cols: &[&str]) -> ConnectFour {
    let mut g = ConnectFour::new();
    for (i, c) in cols.iter().enumerate() {
        for ch in c.chars() {
            let p = match ch {
                'x' => Player::Black,
                'o' => Player::White,
                _ => Player::Gray,
            };
            let _ = g.drop_stone(&p, Column::from_usize(i));
        }
    }
    g
}

#[test]
fn spots_an_opportunity() {
    let mut game = ConnectFour::new();
    game.drop_stone(&Player::White, Column::Four).unwrap();
    game.drop_stone(&Player::Black, Column::Four).unwrap();
    game.drop_stone(&Player::White, Column::Five).unwrap();
    game.drop_stone(&Player::Black, Column::Five).unwrap();
    let (mv, score) = find_best_move(&mut game, &Player::White, 4);
    assert_eq!(score, Some(Score::Won(2)));
    assert_eq!(mv, Some(Column::Three));
}

#[test]
fn test_latest_possible_loss() {
    let mut game = plan(&["xxx", "ox", "xx", "xxo"]);
    assert_eq!(find_best_move(&mut game, &Player::White, 4), (Some(Column::One), Some(Score::Lost(3))));
    let mut game = plan(&["xxo", "xx", "ox", "xxx"]);
    assert_eq!(find_best_move(&mut game, &Player::White, 4), (Some(Column::Four), Some(Score::Lost(3))));
}

#[test]
fn find_complex_winner() {
    let mut game = plan(&["", "xx", "xoxo", "oxooxo", "xxoo", "ox", ""]);
    match find_best_move(&mut game, &Player::White, 6) {
        (Some(_), Some(Score::Won(n))) => assert_eq!(n, 6),
        other => panic!("{:?}", other),
    }
    assert_eq!(find_best_move(&mut game, &Player::White, 3), (Some(Column::Six), Some(Score::Won(2))));
}
