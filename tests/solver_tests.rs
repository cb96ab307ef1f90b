use game::board::{Column, ConnectFour, Player, Score};
use game::codec::hash_from_game;
use game::conductor::{Conductor, ConductorError, Dispatch};
use game::solver::{BruteForceStrategy, SolveError};
use game::store::{ClaimOutcome, GameState, GameStore, StoreError};
use game::worker::{do_the_job, earlier, lock_hash, two_moves_ahead_inquiry, JobError};

fn board(cols: &[&str]) -> ConnectFour {
    let mut g = ConnectFour::new();
    for (i, c) in cols.iter().enumerate() {
        for ch in c.chars() {
            let p = match ch {
                'x' => Player::Black,
                'o' => Player::White,
                _ => Player::Gray,
            };
            let _ = g.drop_stone(&p, Column::from_usize(i));
        }
    }
    g
}

#[test]
fn one_ply_earlier_turns_verdicts_around() {
    assert_eq!(earlier(Score::Won(3)), Score::Lost(4));
    assert_eq!(earlier(Score::Lost(0)), Score::Won(1));
    assert_eq!(earlier(Score::Remis(2)), Score::Remis(3));
    assert_eq!(earlier(Score::Undecided), Score::Undecided);
    assert_eq!(earlier(Score::Won(u32::MAX)), Score::Lost(u32::MAX));
}

#[test]
fn inquiry_takes_an_immediate_win() {
    let g = board(&["", "", "", "xxx", "", "", "ooo"]);
    let store = GameStore::new();
    let (state, interests) = two_moves_ahead_inquiry(&store, hash_from_game(&g), &Player::Black);
    assert_eq!(state, GameState::Decided(Score::Won(1), Some(Column::Four)));
    assert!(interests.is_empty());
}

#[test]
fn inquiry_sees_a_double_threat() {
    let g = board(&["", "o", "", "xo", "", "x", ""]);
    let store = GameStore::new();
    let (state, interests) = two_moves_ahead_inquiry(&store, hash_from_game(&g), &Player::Black);
    assert_eq!(state, GameState::Decided(Score::Won(2), Some(Column::Five)));
    assert!(interests.is_empty());
}

#[test]
fn inquiry_names_open_positions() {
    let g = ConnectFour::new();
    let store = GameStore::new();
    let (state, interests) = two_moves_ahead_inquiry(&store, hash_from_game(&g), &Player::Black);
    assert_eq!(state, GameState::Undecided);
    // every pair of first moves is still open on an empty board
    assert_eq!(interests.len(), 49);
}

#[test]
fn jobs_need_a_claim() {
    let mut store = GameStore::new();
    assert_eq!(lock_hash(&store, 3), Err(JobError::NoRecord));
    assert_eq!(do_the_job(&store, 0, 0, -1, &Player::Black).err(), Some(JobError::BadKey));
    assert_eq!(do_the_job(&store, 0, 0, 3, &Player::Black).err(), Some(JobError::NoRecord));
    assert_eq!(store.claim(3), ClaimOutcome::Created);
    assert_eq!(lock_hash(&store, 3), Ok(true));
    assert_eq!(store.record(3, GameState::Undecided), Ok(()));
    assert_eq!(lock_hash(&store, 3), Err(JobError::NotClaimed));
    assert_eq!(store.claim(3), ClaimOutcome::Created);
    assert_eq!(lock_hash(&store, 3), Ok(false));
}

#[test]
fn first_visit_uses_the_fallback_search() {
    let g = board(&["", "", "", "xxx", "", "", "ooo"]);
    let h = hash_from_game(&g);
    let mut store = GameStore::new();
    let _ = store.claim(h);
    let (state, _) = do_the_job(&store, 0, 0, h, &Player::Black).unwrap();
    assert_eq!(state, GameState::Decided(Score::Won(0), Some(Column::Four)));
    let _ = store.record(h, GameState::Undecided);
    let _ = store.claim(h);
    let (state, _) = do_the_job(&store, 0, 0, h, &Player::Black).unwrap();
    assert_eq!(state, GameState::Decided(Score::Won(1), Some(Column::Four)));
}

#[test]
fn conductor_dispatches_to_least_loaded() {
    let mut store = GameStore::new();
    let mut c = Conductor::new(100, 3);
    assert_eq!(c.on_interest(&mut store, 100, None), Some(Dispatch { key: 100, worker: 0 }));
    assert_eq!(c.on_interest(&mut store, 200, Some(100)), Some(Dispatch { key: 200, worker: 1 }));
    assert_eq!(c.on_interest(&mut store, 300, Some(100)), Some(Dispatch { key: 300, worker: 2 }));
    // already claimed: no second job, the parent is recorded once
    assert_eq!(c.on_interest(&mut store, 200, Some(100)), None);
    assert_eq!(c.on_interest(&mut store, 200, Some(100)), None);
    assert_eq!(
        c.on_completion(&mut store, 100, 7, GameState::Undecided).err(),
        Some(ConductorError::UnknownWorker)
    );
    let done = c.on_completion(&mut store, 100, 0, GameState::Undecided).unwrap();
    assert!(done.dispatches.is_empty());
    assert!(done.verdict.is_none());
    // a verdict for 200 releases 100, which goes to the least-loaded worker 0
    let done = c
        .on_completion(&mut store, 200, 1, GameState::Decided(Score::Lost(2), Some(Column::One)))
        .unwrap();
    assert_eq!(done.dispatches, vec![Dispatch { key: 100, worker: 0 }]);
    assert!(done.verdict.is_none());
    assert_eq!(store.lookup(100), Some(GameState::Recall));
    // a second report for a decided key breaks the protocol
    assert_eq!(
        c.on_completion(&mut store, 200, 1, GameState::Undecided).err(),
        Some(ConductorError::Store(StoreError::NotClaimed))
    );
    let done = c
        .on_completion(&mut store, 100, 0, GameState::Decided(Score::Won(3), Some(Column::Two)))
        .unwrap();
    assert_eq!(done.verdict, Some((Score::Won(3), Some(Column::Two))));
}

#[test]
fn decided_child_reruns_its_parent() {
    let mut store = GameStore::new();
    let mut c = Conductor::new(1, 1);
    assert!(c.on_interest(&mut store, 1, None).is_some());
    assert!(c.on_interest(&mut store, 2, Some(1)).is_some());
    let _ = c.on_completion(&mut store, 2, 0, GameState::Decided(Score::Remis(1), None));
    // the parent asks again for the child after it was decided
    assert_eq!(c.on_interest(&mut store, 2, Some(1)), None);
    let done = c.on_completion(&mut store, 1, 0, GameState::Undecided).unwrap();
    assert_eq!(done.dispatches, vec![Dispatch { key: 1, worker: 0 }]);
}

#[test]
fn solves_a_double_threat() {
    let g = board(&["", "o", "", "xo", "", "x", ""]);
    let s = BruteForceStrategy::new(1);
    let r = s.solve_in_order(&g, &Player::Black, 0, 0, 10_000);
    assert_eq!(r, Ok((Score::Won(2), Some(Column::Five))));
}

#[test]
fn worker_count_does_not_change_the_verdict() {
    let g = board(&["", "o", "", "xo", "", "x", ""]);
    let one = BruteForceStrategy::new(1).solve_in_order(&g, &Player::Black, 2, 0, 10_000);
    let four = BruteForceStrategy::new(4).solve_in_order(&g, &Player::Black, 2, 0, 10_000);
    assert!(one.is_ok());
    assert_eq!(one, four);
}

#[test]
fn near_full_board_is_decided_without_lookahead() {
    let g = board(&[":::xo", ":::ox", ":::xo", ":::ox", ":::xo", ":::ox", ":::xo"]);
    let one = BruteForceStrategy::new(1).solve_in_order(&g, &Player::Black, 0, 0, 100_000);
    let three = BruteForceStrategy::new(3).solve_in_order(&g, &Player::Black, 0, 0, 100_000);
    match one {
        Ok((Score::Remis(_), Some(_))) | Ok((Score::Won(_), Some(_))) | Ok((Score::Lost(_), Some(_))) => {}
        other => panic!("not decided: {:?}", other),
    }
    assert_eq!(one, three);
}

#[test]
fn thirty_stones_solved_by_the_store_alone() {
    let g = board(&[":::xo", ":::ox", ":::xo", ":::ox", ":::xo", ":::", ":x"]);
    let r = BruteForceStrategy::new(2).solve_in_order(&g, &Player::Black, 0, 0, 1_000_000);
    match r {
        Ok((Score::Remis(_), Some(_))) | Ok((Score::Won(_), Some(_))) | Ok((Score::Lost(_), Some(_))) => {}
        other => panic!("not decided: {:?}", other),
    }
}

#[test]
fn test_bruteforce() {
    let g = board(&["", "", "oxox", "", "oxox", "xo:x", ""]);
    for toplimit in [4, 0] {
        let r = BruteForceStrategy::new(1).solve_in_order(&g, &Player::Black, toplimit, 0, 1_000_000);
        assert_eq!(r, Ok((Score::Won(4), Some(Column::Four))), "lookahead {}", toplimit);
    }
}

#[test]
fn test_bruteforce_2() {
    let g = board(&["", "o", "", "xo", "", "x", ""]);
    for toplimit in [4, 0] {
        let r = BruteForceStrategy::new(1).solve_in_order(&g, &Player::Black, toplimit, 0, 1_000_000);
        assert_eq!(r, Ok((Score::Won(2), Some(Column::Five))), "lookahead {}", toplimit);
    }
}

#[test]
fn test_basically_over() {
    let g = board(&[":::xo", ":::ox", ":::xo", ":::ox", ":::xo", ":::ox", ":::xo"]);
    let r = BruteForceStrategy::new(1).solve_in_order(&g, &Player::Black, 0, 0, 1_000_000);
    assert_eq!(r, Ok((Score::Remis(6), Some(Column::One))));
}

#[test]
fn a_solve_without_jobs_runs_out() {
    let g = board(&["", "o", "", "xo", "", "x", ""]);
    let r = BruteForceStrategy::new(2).solve_in_order(&g, &Player::Black, 0, 0, 0);
    assert_eq!(r, Err(SolveError::OutOfJobs));
}

#[test]
fn an_immediate_win_is_the_verdict() {
    let g = board(&["", "", "", "xxx", "", "", "ooo"]);
    let r = BruteForceStrategy::new(3).solve_in_order(&g, &Player::Black, 0, 0, 1);
    assert_eq!(r, Ok((Score::Won(0), Some(Column::Four))));
}
