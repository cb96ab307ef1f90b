use game::board::{Column, ConnectFour, Player};
use game::codec::{game_from_hash, hash_from_game, hash_from_state};

fn board(cols: &[&str]) -> ConnectFour {
    let mut g = ConnectFour::new();
    for (i, c) in cols.iter().enumerate() {
        for ch in c.chars() {
            let p = match ch {
                'x' => Player::Black,
                'o' => Player::White,
                _ => Player::Gray,
            };
            let _ = g.drop_stone(&p, Column::from_usize(i));
        }
    }
    g
}

#[test]
fn known_keys() {
    let g = board(&["", "", "oxox", "", "oxox", "xo:x", ""]);
    assert_eq!(hash_from_state(g.state()), 209874779512449794048);
    let g = board(&["", "o", "", "xo", "", "x", ""]);
    assert_eq!(hash_from_game(&g), 2305843421530558464);
    assert_eq!(hash_from_game(&ConnectFour::new()), 0);
}

#[test]
fn single_stone_keys() {
    let g = board(&["o"]);
    assert_eq!(hash_from_game(&g), 1);
    let g = board(&["", "x"]);
    assert_eq!(hash_from_game(&g), 2 * 4096);
    let g = board(&["ooooo:"]);
    assert_eq!(hash_from_game(&g), 1 + 4 + 16 + 64 + 256 + 3 * 1024);
}

#[test]
fn decode_of_encode_is_the_board() {
    let boards = [
        board(&["", "", "oxox", "", "oxox", "xo:x", ""]),
        board(&["xoxoxo", "oxoxox", ":::xo", "x", "", "o", "xxoo::"]),
        board(&["", "", "", "", "", "", "xoxoxo"]),
        ConnectFour::new(),
    ];
    for g in boards.iter() {
        let back = game_from_hash(hash_from_game(g));
        assert_eq!(back.state(), g.state());
    }
}

#[test]
fn decode_stops_at_first_empty_cell() {
    // column one: white, empty, then a black digit that must not be read
    let h: i128 = 1 + 2 * 16;
    let g = game_from_hash(h);
    assert_eq!(g.state()[0], vec![Some(Player::White)]);
    for c in 1..7 {
        assert!(g.state()[c].is_empty());
    }
}

#[test]
fn full_board_round_trip() {
    let g = board(&["oooxxx", "xoxoxo", "xxooxx", "oxoxox", "oooxxx", "xxxooo", "ooxxoo"]);
    let h = hash_from_game(&g);
    assert!(h > 0);
    assert!(h < 1i128 << 84);
    assert_eq!(game_from_hash(h).state(), g.state());
    // every cell gray: the largest key a board can have
    let g = board(&["::::::"; 7]);
    assert_eq!(hash_from_game(&g), (1i128 << 84) - 1);
    assert_eq!(game_from_hash((1i128 << 84) - 1).state(), g.state());
}
