//! The transposition store: what is known of each position key, and the
//! claim discipline that lets only one worker explore a position at a time.
use vstd::prelude::*;
use std::collections::HashMap;
use crate::board::{Column, Score};
use crate::codec::GameHash;

verus! {

broadcast use vstd::std_specs::hash::group_hash_axioms;

/// The life of a store entry. `Novel` and `Recall` mean that the position is
/// claimed and being explored (for the first time, or again); `Undecided` that
/// an exploration ended without a verdict; `Decided` is final.
#[derive(PartialEq, Eq, Debug, Clone, Copy, Structural)]
pub enum GameState {
    Decided(Score, Option<Column>),
    Undecided,
    Novel,
    Recall,
}

/// What a claim found.
#[derive(PartialEq, Eq, Debug, Clone, Copy, Structural)]
pub enum ClaimOutcome {
    /// The key was unseen or pending; it is now claimed and must be explored.
    Created,
    /// The key is already claimed by an exploration under way.
    AlreadyOwned,
    /// The key has a final verdict.
    AlreadyDecided(Score, Option<Column>),
}

/// Why a verdict could not be recorded.
#[derive(PartialEq, Eq, Debug, Clone, Copy, Structural)]
pub enum StoreError {
    /// The key has no entry.
    Unknown,
    /// The key is not claimed: it is pending or already decided.
    NotClaimed,
}

pub open spec fn is_claimed(s: GameState) -> bool {
    s is Novel || s is Recall
}

/// The store and the outcome after claiming `k` in `m`.
pub open spec fn claim_spec(m: Map<GameHash, GameState>, k: GameHash) -> (Map<
    GameHash,
    GameState,
>, ClaimOutcome) {
    if !m.contains_key(k) {
        (m.insert(k, GameState::Novel), ClaimOutcome::Created)
    } else {
        match m[k] {
            GameState::Undecided => (m.insert(k, GameState::Recall), ClaimOutcome::Created),
            GameState::Decided(s, c) => (m, ClaimOutcome::AlreadyDecided(s, c)),
            _ => (m, ClaimOutcome::AlreadyOwned),
        }
    }
}

/// Every decided entry of `m` is still there, unchanged, in `n`.
pub open spec fn keeps_decided(m: Map<GameHash, GameState>, n: Map<GameHash, GameState>) -> bool {
    forall|k: GameHash|
        m.contains_key(k) && (#[trigger] m[k]) is Decided ==> n.contains_key(k) && n[k] == m[k]
}

/// Claims each key of `ks` in turn; the store at the end and the outcomes in order.
pub open spec fn claim_all(m: Map<GameHash, GameState>, ks: Seq<GameHash>) -> (Map<
    GameHash,
    GameState,
>, Seq<ClaimOutcome>)
    decreases ks.len(),
{
    if ks.len() == 0 {
        (m, Seq::empty())
    } else {
        let (m1, o) = claim_spec(m, ks[0]);
        let (m2, os) = claim_all(m1, ks.drop_first());
        (m2, seq![o] + os)
    }
}

/// How many claims of `k` among `ks` returned `Created`.
pub open spec fn created_count(ks: Seq<GameHash>, os: Seq<ClaimOutcome>, k: GameHash) -> nat
    decreases ks.len(),
{
    if ks.len() == 0 || os.len() == 0 {
        0
    } else {
        (if ks[0] == k && os[0] is Created {
            1nat
        } else {
            0nat
        }) + created_count(ks.drop_first(), os.drop_first(), k)
    }
}

/// Once `k` is claimed, later claims of any keys never return `Created` for `k`.
proof fn lemma_owned_stays_owned(m: Map<GameHash, GameState>, ks: Seq<GameHash>, k: GameHash)
    requires
        m.contains_key(k),
        is_claimed(m[k]),
    ensures
        created_count(ks, claim_all(m, ks).1, k) == 0,
    decreases ks.len(),
{
    if ks.len() > 0 {
        let m1 = claim_spec(m, ks[0]).0;
        assert(m1.contains_key(k) && m1[k] == m[k]);
        lemma_owned_stays_owned(m1, ks.drop_first(), k);
        assert((seq![claim_spec(m, ks[0]).1] + claim_all(m1, ks.drop_first()).1).drop_first()
            =~= claim_all(m1, ks.drop_first()).1);
    }
}

/// Between two verdicts, a key is handed out for exploration at most once:
/// whatever keys are claimed in whatever order, at most one claim of `k`
/// returns `Created`.
pub proof fn lemma_single_creation(m: Map<GameHash, GameState>, ks: Seq<GameHash>, k: GameHash)
    ensures
        created_count(ks, claim_all(m, ks).1, k) <= 1,
    decreases ks.len(),
{
    if ks.len() > 0 {
        let (m1, o) = claim_spec(m, ks[0]);
        let os = claim_all(m1, ks.drop_first()).1;
        assert((seq![o] + os).drop_first() =~= os);
        if ks[0] == k && o is Created {
            assert(m1.contains_key(k) && is_claimed(m1[k]));
            lemma_owned_stays_owned(m1, ks.drop_first(), k);
        } else {
            lemma_single_creation(m1, ks.drop_first(), k);
        }
    }
}

/// Claims, and any sequence of them, never change a decided entry.
pub proof fn lemma_claims_keep_decided(m: Map<GameHash, GameState>, ks: Seq<GameHash>)
    ensures
        keeps_decided(m, claim_all(m, ks).0),
    decreases ks.len(),
{
    if ks.len() > 0 {
        let m1 = claim_spec(m, ks[0]).0;
        lemma_claims_keep_decided(m1, ks.drop_first());
        let m2 = claim_all(m, ks).0;
        assert(m2 == claim_all(m1, ks.drop_first()).0);
        assert forall|k: GameHash| m.contains_key(k) && (#[trigger] m[k]) is Decided implies m2.contains_key(k)
            && m2[k] == m[k] by {
            assert(m1.contains_key(k) && m1[k] == m[k]);
        }
    }
}

pub struct GameStore {
    records: HashMap<GameHash, GameState>,
}

impl View for GameStore {
    type V = Map<GameHash, GameState>;

    closed spec fn view(&self) -> Map<GameHash, GameState> {
        self.records@
    }
}

impl GameStore {
    pub fn new() -> (r: GameStore)
        ensures
            r@ == Map::<GameHash, GameState>::empty(),
    {
        GameStore { records: HashMap::new() }
    }

    pub fn len(&self) -> (r: usize)
        ensures
            r == self@.len(),
    {
        self.records.len()
    }

    pub fn lookup(&self, key: GameHash) -> (r: Option<GameState>)
        ensures
            r == (if self@.contains_key(key) {
                Some(self@[key])
            } else {
                None::<GameState>
            }),
    {
        match self.records.get(&key) {
            Some(s) => Some(*s),
            None => None,
        }
    }

    /// Claims `key` for exploration: an unseen key becomes `Novel`, a pending
    /// one `Recall`, and both report `Created`; a claimed or decided key is
    /// left as it is.
    pub fn claim(&mut self, key: GameHash) -> (r: ClaimOutcome)
        ensures
            (final(self)@, r) == claim_spec(old(self)@, key),
            keeps_decided(old(self)@, final(self)@),
    {
        match self.records.get(&key) {
            None => {
                self.records.insert(key, GameState::Novel);
                ClaimOutcome::Created
            },
            Some(GameState::Undecided) => {
                self.records.insert(key, GameState::Recall);
                ClaimOutcome::Created
            },
            Some(GameState::Decided(s, c)) => ClaimOutcome::AlreadyDecided(*s, *c),
            Some(_) => ClaimOutcome::AlreadyOwned,
        }
    }

    /// Records what an exploration of a claimed key found. Only a claimed key
    /// takes a record; any other entry is left as it is.
    pub fn record(&mut self, key: GameHash, state: GameState) -> (r: Result<(), StoreError>)
        ensures
            !old(self)@.contains_key(key) ==> r == Err::<(), StoreError>(StoreError::Unknown),
            old(self)@.contains_key(key) && !is_claimed(old(self)@[key]) ==> r == Err::<
                (),
                StoreError,
            >(StoreError::NotClaimed),
            r is Err ==> final(self)@ == old(self)@,
            r is Ok ==> final(self)@ == old(self)@.insert(key, state),
            r is Ok <==> old(self)@.contains_key(key) && is_claimed(old(self)@[key]),
            keeps_decided(old(self)@, final(self)@),
    {
        match self.records.get(&key) {
            None => Err(StoreError::Unknown),
            Some(GameState::Novel) | Some(GameState::Recall) => {
                self.records.insert(key, state);
                Ok(())
            },
            Some(_) => Err(StoreError::NotClaimed),
        }
    }
}

} // verus!
