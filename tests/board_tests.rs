use game::board::{Column, ConnectFour, ConnectFourMove, Move, Player, Score, Withdraw};

fn drop_all(cf: &mut ConnectFour, p: Player, cols: &[Column]) {
    for c in cols {
        let _ = cf.drop_stone(&p, *c);
    }
}

#[test]
fn lib_tests_test_column() {
    assert_eq!(Column::Five.to_usize(), 0x4);
}

#[test]
fn lib_test_column() {
    assert_eq!(Column::Five.to_usize(), 0x4);
}

#[test]
fn column_round_trip() {
    for i in 0..7usize {
        assert_eq!(Column::from_usize(i).to_usize(), i);
    }
    assert_eq!(Column::from_usize(7), Column::Zero);
    assert_eq!(Column::Zero.to_usize(), 0x99);
}

#[test]
fn lib_tests_test_move() {
    let white = Player::White;

    let middle = Box::new(ConnectFourMove { data: Column::Four });
    assert_eq!(middle.data().to_usize(), 0x3);

    // drop 7 white Stones in the middle column
    let mut cf = ConnectFour::new();
    for i in 0..7 {
        let middle = ConnectFourMove { data: Column::Four };
        match cf.make_move(&white, &middle) {
            Ok(x) => match x {
                // should be undecided 3 times
                Score::Undecided => assert!(i < 3, "{}", i),
                // then won 3 times
                Score::Won(in_n) => {
                    assert!(i > 2, "{}", i);
                    assert!(in_n == 0, "{}", in_n);
                }
                _ => assert!(false),
            },
            // the 7th stone is one too many
            _ => assert!(i > 5),
        }
    }

    // drop 4 stones in a row
    let mut cf = ConnectFour::new();
    match cf.make_move(&white, &ConnectFourMove { data: Column::Four }) {
        Ok(x) => if let Score::Undecided = x { () } else { assert!(false) },
        _ => assert!(false),
    }
    match cf.make_move(&white, &ConnectFourMove { data: Column::Two }) {
        Ok(x) => if let Score::Undecided = x { () } else { assert!(false) },
        _ => assert!(false),
    }
    match cf.make_move(&white, &ConnectFourMove { data: Column::Five }) {
        Ok(x) => if let Score::Undecided = x { () } else { assert!(false) },
        _ => assert!(false),
    }
    match cf.make_move(&white, &ConnectFourMove { data: Column::Three }) {
        Ok(x) => if let Score::Won(0) = x { () } else { assert!(false) },
        _ => assert!(false),
    }
}

#[test]
fn lib_test_move() {
    let white = Player::White;
    let mut cf = ConnectFour::new();
    for i in 0..7 {
        match cf.make_move(&white, &ConnectFourMove { data: Column::Four }) {
            Ok(Score::Undecided) => assert!(i < 3),
            Ok(Score::Won(_)) => assert!(i > 2),
            Ok(_) => assert!(false),
            Err(_) => assert!(i > 5),
        }
    }
}

#[test]
fn lib_tests_test_possible_moves() {
    let mut cf = ConnectFour::new();
    let p = Player::Black;
    let pm = cf.possible_moves(&p);
    assert!(pm.len() == ConnectFour::width());
    assert!(*pm[3].data() == Column::Four);

    for _ in 0..6 {
        let _ = cf.drop_stone(&p, Column::Four);
    }
    let pm = cf.possible_moves(&p);
    for x in &pm {
        println!("{:?}", &x.data());
    }
    assert!(pm.len() == ConnectFour::width() - 1);
    assert!(*pm[3].data() == Column::Five);
}

#[test]
fn lib_test_possible_moves() {
    let mut cf = ConnectFour::new();
    let p = Player::Black;
    assert_eq!(cf.possible_moves(&p).len(), 7);
    for _ in 0..6 {
        let _ = cf.drop_stone(&p, Column::Four);
    }
    let pm = cf.possible_moves(&p);
    assert_eq!(pm.len(), 6);
    assert_eq!(pm[3].data, Column::Five);
}

#[test]
fn fourth_center_drop_wins() {
    let mut cf = ConnectFour::new();
    for _ in 0..3 {
        assert_eq!(cf.drop_stone(&Player::Black, Column::Four), Ok(Score::Undecided));
    }
    assert_eq!(cf.drop_stone(&Player::Black, Column::Four), Ok(Score::Won(0)));
}

#[test]
fn diagonals_win() {
    // '/' diagonal for white: (0,0) (1,1) (2,2) (3,3)
    let mut cf = ConnectFour::new();
    let _ = cf.drop_stone(&Player::White, Column::One);
    drop_all(&mut cf, Player::Black, &[Column::Two]);
    let _ = cf.drop_stone(&Player::White, Column::Two);
    drop_all(&mut cf, Player::Black, &[Column::Three, Column::Three]);
    let _ = cf.drop_stone(&Player::White, Column::Three);
    drop_all(&mut cf, Player::Black, &[Column::Four, Column::Four, Column::Four]);
    assert_eq!(cf.drop_stone(&Player::White, Column::Four), Ok(Score::Won(0)));

    // '\' diagonal for white, completed in the middle: (0,3) (1,2) (2,1) (3,0)
    let mut cf = ConnectFour::new();
    drop_all(&mut cf, Player::Black, &[Column::One, Column::One, Column::One]);
    let _ = cf.drop_stone(&Player::White, Column::One);
    drop_all(&mut cf, Player::Black, &[Column::Two, Column::Two]);
    let _ = cf.drop_stone(&Player::White, Column::Two);
    let _ = cf.drop_stone(&Player::White, Column::Four);
    drop_all(&mut cf, Player::Black, &[Column::Three]);
    assert_eq!(cf.drop_stone(&Player::White, Column::Three), Ok(Score::Won(0)));
}

#[test]
fn a_gap_breaks_the_line() {
    let mut cf = ConnectFour::new();
    drop_all(&mut cf, Player::White, &[Column::One, Column::Two]);
    drop_all(&mut cf, Player::Black, &[Column::Three]);
    assert_eq!(cf.drop_stone(&Player::White, Column::Four), Ok(Score::Undecided));
    assert_eq!(cf.drop_stone(&Player::White, Column::Five), Ok(Score::Undecided));
}

#[test]
fn full_column_is_refused_and_board_kept() {
    let mut cf = ConnectFour::new();
    for i in 0..6 {
        let p = if i % 2 == 0 { Player::Black } else { Player::White };
        let _ = cf.drop_stone(&p, Column::Seven);
    }
    let before = cf.state().clone();
    assert_eq!(cf.drop_stone(&Player::Black, Column::Seven), Err(Withdraw::NotAllowed));
    assert_eq!(cf.drop_stone(&Player::Black, Column::Zero), Err(Withdraw::NotAllowed));
    assert_eq!(*cf.state(), before);
}

#[test]
fn withdraw_restores_the_board() {
    let mut cf = ConnectFour::new();
    drop_all(&mut cf, Player::White, &[Column::Two, Column::Three]);
    let before = cf.state().clone();
    let _ = cf.drop_stone(&Player::Black, Column::Three);
    cf.undrop_stone(&Player::Black, Column::Three);
    assert_eq!(*cf.state(), before);
    let copy = cf.clone();
    assert_eq!(*copy.state(), before);
}

#[test]
fn last_stone_draws() {
    // a full board on which nobody has four in a line
    let mut cf = ConnectFour::new();
    let cols = ["oooxxx", "xoxoxo", "xxooxx", "oxoxox", "oooxxx", "xxxooo", "ooxxoo"];
    let mut last = Ok(Score::Undecided);
    for (c, col) in cols.iter().enumerate() {
        for ch in col.chars() {
            let p = if ch == 'x' { Player::Black } else { Player::White };
            last = cf.drop_stone(&p, Column::from_usize(c));
            assert!(!matches!(last, Ok(Score::Won(_))), "unexpected win in column {}", c);
        }
    }
    assert_eq!(last, Ok(Score::Remis(0)));
    assert!(cf.possible_moves(&Player::Black).is_empty());
}

#[test]
fn opponents() {
    assert_eq!(Player::Black.opponent(), Player::White);
    assert_eq!(Player::White.opponent(), Player::Black);
    assert_eq!(Player::Gray.opponent(), Player::Gray);
}

#[test]
fn plan_round_trip() {
    let plan = "------\n\nx\n\nxo\n\no\n\n------";
    let g = ConnectFour::replicate(plan).unwrap();
    assert_eq!(g.state()[1], vec![Some(Player::Black)]);
    assert_eq!(g.state()[3], vec![Some(Player::Black), Some(Player::White)]);
    assert_eq!(g.display(), plan);
}

#[test]
fn plan_with_gray_and_few_lines() {
    let g = ConnectFour::replicate("------\nnx").unwrap();
    assert_eq!(g.state()[0], vec![Some(Player::Gray), Some(Player::Black)]);
    assert!(g.state()[1].is_empty());
    assert_eq!(g.display(), "------\nnx\n\n\n\n\n\n\n------");
}

#[test]
fn plans_that_are_refused() {
    assert!(ConnectFour::replicate("------\nq\n------").is_none());
    assert!(ConnectFour::replicate("------\nxxxxxxx\n------").is_none());
    assert!(ConnectFour::replicate("-----\nx\n------").is_none());
    assert!(ConnectFour::replicate("------\n\n\n\n\n\n\n\nx").is_none());
    assert!(ConnectFour::replicate("").is_none());
}

#[test]
fn empty_board_display() {
    assert_eq!(ConnectFour::new().display(), "------\n\n\n\n\n\n\n\n------");
}
