use game::board::{Column, Score};
use game::store::{ClaimOutcome, GameState, GameStore, StoreError};

#[test]
fn claim_once_per_cycle() {
    let mut s = GameStore::new();
    assert_eq!(s.claim(7), ClaimOutcome::Created);
    assert_eq!(s.lookup(7), Some(GameState::Novel));
    for _ in 0..10 {
        assert_eq!(s.claim(7), ClaimOutcome::AlreadyOwned);
    }
    assert_eq!(s.record(7, GameState::Undecided), Ok(()));
    assert_eq!(s.claim(7), ClaimOutcome::Created);
    assert_eq!(s.lookup(7), Some(GameState::Recall));
    assert_eq!(s.claim(7), ClaimOutcome::AlreadyOwned);
}

#[test]
fn decided_is_final() {
    let mut s = GameStore::new();
    let v = GameState::Decided(Score::Won(3), Some(Column::Two));
    assert_eq!(s.claim(1), ClaimOutcome::Created);
    assert_eq!(s.record(1, v), Ok(()));
    assert_eq!(s.claim(1), ClaimOutcome::AlreadyDecided(Score::Won(3), Some(Column::Two)));
    assert_eq!(s.record(1, GameState::Undecided), Err(StoreError::NotClaimed));
    assert_eq!(s.record(1, GameState::Decided(Score::Lost(1), None)), Err(StoreError::NotClaimed));
    assert_eq!(s.lookup(1), Some(v));
}

#[test]
fn record_needs_a_claim() {
    let mut s = GameStore::new();
    assert_eq!(s.record(5, GameState::Undecided), Err(StoreError::Unknown));
    assert_eq!(s.lookup(5), None);
    assert_eq!(s.claim(5), ClaimOutcome::Created);
    assert_eq!(s.record(5, GameState::Undecided), Ok(()));
    assert_eq!(s.record(5, GameState::Undecided), Err(StoreError::NotClaimed));
    assert_eq!(s.len(), 1);
}
