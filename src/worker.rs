//! What a worker does with one job: decide a position from the board, from
//! the store two plies ahead, or name the positions it is waiting on.
use vstd::prelude::*;
use crate::board::{
    column_at, lemma_column_at, field_view, field_wf, Column, ConnectFour, Field, Player, Score, WIDTH, col_index, dropped,
    lemma_dropped_keeps_wf, open_columns, opponent_of, playable, score_of,
};
use crate::codec::{GameHash, field_code, lemma_key_fits, field_of, game_from_hash, hash_from_state, columns_fit};
use crate::search::{
    best, first_win, lemma_first_win_stable, find_best_move, has_immediate_win, lemma_lift_dropped, lemma_open_columns_playable, wins_at,
};
use crate::store::{GameState, GameStore};

verus! {

/// Adds `k` plies to a distance; distances stop at the largest `u32`.
pub open spec fn later(d: u32, k: u32) -> u32 {
    if d + k <= u32::MAX {
        (d + k) as u32
    } else {
        u32::MAX
    }
}

/// The verdict of the player who moved into a position whose verdict, for
/// the player now to move there, is `s`: a win there is a loss one ply earlier.
pub open spec fn one_ply_earlier(s: Score) -> Score {
    match s {
        Score::Won(n) => Score::Lost(later(n, 1)),
        Score::Lost(n) => Score::Won(later(n, 1)),
        Score::Remis(n) => Score::Remis(later(n, 1)),
        Score::Undecided => Score::Undecided,
    }
}

fn later_by(d: u32, k: u32) -> (r: u32)
    ensures
        r == later(d, k),
{
    d.saturating_add(k)
}

/// Turns a verdict around to the side of the player who moved one ply earlier.
pub fn earlier(s: Score) -> (r: Score)
    ensures
        r == one_ply_earlier(s),
{
    match s {
        Score::Won(n) => Score::Lost(later_by(n, 1)),
        Score::Lost(n) => Score::Won(later_by(n, 1)),
        Score::Remis(n) => Score::Remis(later_by(n, 1)),
        Score::Undecided => Score::Undecided,
    }
}

/// What one own move comes to: a verdict for the mover, or the keys of the
/// positions two plies on whose verdicts it is waiting for.
pub enum MoveOutcome {
    Decided(Score),
    Open(Vec<GameHash>),
}

/// `h` is the key of a position reached from `b` by a move of `p` and a reply.
pub open spec fn is_grandchild_key(b: Field, p: Player, h: GameHash) -> bool {
    exists|c: int, d: int|
        #[trigger] playable(b, c) && #[trigger] playable(dropped(b, c, p), d) && h == field_code(
            dropped(dropped(b, c, p), d, opponent_of(p)),
        )
}

/// The store holds no verdict for `h`.
pub open spec fn undecided_in(m: Map<GameHash, GameState>, h: GameHash) -> bool {
    !(m.contains_key(h) && m[h] is Decided && !(m[h]->Decided_0 is Undecided))
}

/// Every key of `hs` is a position two plies on from `b` for which the
/// store holds no verdict.
pub open spec fn genuine_interests(
    m: Map<GameHash, GameState>,
    b: Field,
    p: Player,
    hs: Seq<GameHash>,
) -> bool {
    forall|k: int|
        0 <= k < hs.len() ==> is_grandchild_key(b, p, #[trigger] hs[k]) && undecided_in(m, hs[k])
}


/// A score one ply further on for the same player: how a stone that
/// decides the game at once counts in the two-ply look-ahead.
pub open spec fn one_ply_on(s: Score) -> Score {
    match s {
        Score::Won(n) => Score::Won(later(n, 1)),
        Score::Lost(n) => Score::Lost(later(n, 1)),
        Score::Remis(n) => Score::Remis(later(n, 1)),
        Score::Undecided => Score::Undecided,
    }
}

/// The verdict for `p` of the position `g`: the store's, if it holds one,
/// else the fallback search's two plies deep.
pub open spec fn known_verdict(m: Map<GameHash, GameState>, g: Field, p: Player) -> Score {
    let h = field_code(g) as GameHash;
    if m.contains_key(h) {
        match m[h] {
            GameState::Decided(v, _) => v,
            _ => Score::Undecided,
        }
    } else {
        match best(g, p, 2).1 {
            Some(v) => v,
            None => Score::Undecided,
        }
    }
}

/// The opponent's outlook after replying into column `d` of `cb`, where a
/// move of `p` left the board: its own score one ply on if the reply decides
/// the game, else the verdict for `p` of the position it leads to, turned
/// one ply earlier.
pub open spec fn reply_outlook(m: Map<GameHash, GameState>, cb: Field, p: Player, d: int) -> Score {
    let q = opponent_of(p);
    let s = score_of(dropped(cb, d, q), d, q);
    if s is Undecided {
        one_ply_earlier(known_verdict(m, dropped(cb, d, q), p))
    } else {
        one_ply_on(s)
    }
}

/// Distances grow by one ply for each ply back. When the position a reply
/// of the opponent leads to is decided for `p` as a win in `n` plies, the
/// opponent who would select that reply sees a loss in `n + 1`; a loss for
/// `p` there is a win in `n + 1` for the opponent; a draw stays a draw, one
/// ply further away. And a move of `p` is judged by the opponent's outlook
/// turned back one ply the same way.
pub proof fn lemma_distance_monotone(
    m: Map<GameHash, GameState>,
    cb: Field,
    p: Player,
    d: int,
    n: u32,
)
    requires
        n < u32::MAX,
        score_of(dropped(cb, d, opponent_of(p)), d, opponent_of(p)) is Undecided,
    ensures
        known_verdict(m, dropped(cb, d, opponent_of(p)), p) == Score::Won(n) ==> reply_outlook(
            m,
            cb,
            p,
            d,
        ) == Score::Lost((n + 1) as u32),
        known_verdict(m, dropped(cb, d, opponent_of(p)), p) == Score::Lost(n) ==> reply_outlook(
            m,
            cb,
            p,
            d,
        ) == Score::Won((n + 1) as u32),
        known_verdict(m, dropped(cb, d, opponent_of(p)), p) == Score::Remis(n) ==> reply_outlook(
            m,
            cb,
            p,
            d,
        ) == Score::Remis((n + 1) as u32),
        one_ply_earlier(Score::Won(n)) == Score::Lost((n + 1) as u32),
        one_ply_earlier(Score::Lost(n)) == Score::Won((n + 1) as u32),
{
}

/// The opponent's replies among the first `k` columns of `acols`: the first
/// winning outlook, the keys of the replies still open, the first drawn
/// outlook, the latest losing one. Nothing more is looked at after a win.
pub open spec fn reply_scan(
    m: Map<GameHash, GameState>,
    cb: Field,
    p: Player,
    acols: Seq<nat>,
    k: int,
) -> (Option<u32>, Seq<GameHash>, Option<u32>, Option<u32>)
    decreases (if k > 0 {
        k
    } else {
        0
    }),
{
    if k <= 0 || k > acols.len() {
        (None, Seq::empty(), None, None)
    } else {
        let prev = reply_scan(m, cb, p, acols, k - 1);
        if prev.0 is Some {
            prev
        } else {
            let d = acols[k - 1] as int;
            match reply_outlook(m, cb, p, d) {
                Score::Won(n) => (Some(n), prev.1, prev.2, prev.3),
                Score::Lost(n) => (
                    prev.0,
                    prev.1,
                    prev.2,
                    if prev.3 is Some && n <= prev.3->0 {
                        prev.3
                    } else {
                        Some(n)
                    },
                ),
                Score::Remis(n) => (
                    prev.0,
                    prev.1,
                    if prev.2 is Some {
                        prev.2
                    } else {
                        Some(n)
                    },
                    prev.3,
                ),
                Score::Undecided => (
                    prev.0,
                    prev.1.push(field_code(dropped(cb, d, opponent_of(p))) as GameHash),
                    prev.2,
                    prev.3,
                ),
            }
        }
    }
}

/// The store's distance for `p` winning after the reply into column `d`.
pub open spec fn won_after(m: Map<GameHash, GameState>, cb: Field, p: Player, d: int) -> u32 {
    known_verdict(m, dropped(cb, d, opponent_of(p)), p)->Won_0
}

/// The largest such distance over the first `k` replies of `acols`.
pub open spec fn max_won(m: Map<GameHash, GameState>, cb: Field, p: Player, acols: Seq<nat>, k: int) -> u32
    decreases (if k > 0 {
        k
    } else {
        0
    }),
{
    if k <= 1 {
        won_after(m, cb, p, acols[0] as int)
    } else {
        let prev = max_won(m, cb, p, acols, k - 1);
        let n = won_after(m, cb, p, acols[k - 1] as int);
        if n <= prev {
            prev
        } else {
            n
        }
    }
}

/// Every reply of the opponent leads to a position that `p` wins, none of
/// them at once, with distances well below the largest `u32`.
pub open spec fn every_reply_loses(m: Map<GameHash, GameState>, cb: Field, p: Player) -> bool {
    let acols = open_columns(cb, WIDTH as int);
    forall|j: int|
        0 <= j < acols.len() ==> {
            &&& score_of(dropped(cb, #[trigger] acols[j] as int, opponent_of(p)), acols[j] as int, opponent_of(p)) is Undecided
            &&& known_verdict(m, dropped(cb, acols[j] as int, opponent_of(p)), p) is Won
            &&& won_after(m, cb, p, acols[j] as int) < u32::MAX - 2
        }
}

proof fn lemma_scan_all_lost(m: Map<GameHash, GameState>, cb: Field, p: Player, k: int)
    requires
        every_reply_loses(m, cb, p),
        1 <= k <= open_columns(cb, WIDTH as int).len(),
    ensures
        ({
            let acols = open_columns(cb, WIDTH as int);
            &&& reply_scan(m, cb, p, acols, k) == (
                None::<u32>,
                Seq::<GameHash>::empty(),
                None::<u32>,
                Some((max_won(m, cb, p, acols, k) + 1) as u32),
            )
            &&& max_won(m, cb, p, acols, k) < u32::MAX - 2
            &&& forall|j: int| 0 <= j < k ==> won_after(m, cb, p, #[trigger] acols[j] as int) <= max_won(m, cb, p, acols, k)
        }),
    decreases k,
{
    let acols = open_columns(cb, WIDTH as int);
    let d = acols[k - 1] as int;
    assert(known_verdict(m, dropped(cb, d, opponent_of(p)), p) is Won);
    if k > 1 {
        lemma_scan_all_lost(m, cb, p, k - 1);
    } else {
        assert(reply_scan(m, cb, p, acols, 0) == (
            None::<u32>,
            Seq::<GameHash>::empty(),
            None::<u32>,
            None::<u32>,
        ));
    }
}

/// A move that leaves the opponent only replies into positions `p` wins is
/// a win for `p` in two plies more than the longest of those: the opponent
/// takes the reply that resists longest, each ply adding one.
pub proof fn lemma_forced_win_distance(m: Map<GameHash, GameState>, cb: Field, p: Player)
    requires
        every_reply_loses(m, cb, p),
        open_columns(cb, WIDTH as int).len() > 0,
    ensures
        ({
            let acols = open_columns(cb, WIDTH as int);
            let n = max_won(m, cb, p, acols, acols.len() as int);
            &&& reply_result(m, cb, p) == (Some(Score::Won((n + 2) as u32)), Seq::<GameHash>::empty())
            &&& forall|j: int| 0 <= j < acols.len() ==> won_after(m, cb, p, #[trigger] acols[j] as int) <= n
            &&& exists|j: int| 0 <= j < acols.len() && won_after(m, cb, p, #[trigger] acols[j] as int) == n
        }),
{
    let acols = open_columns(cb, WIDTH as int);
    lemma_scan_all_lost(m, cb, p, acols.len() as int);
    lemma_max_won_attained(m, cb, p, acols, acols.len() as int);
}

proof fn lemma_max_won_attained(m: Map<GameHash, GameState>, cb: Field, p: Player, acols: Seq<nat>, k: int)
    requires
        1 <= k <= acols.len(),
    ensures
        exists|j: int| 0 <= j < k && won_after(m, cb, p, #[trigger] acols[j] as int) == max_won(m, cb, p, acols, k),
    decreases k,
{
    if k > 1 {
        lemma_max_won_attained(m, cb, p, acols, k - 1);
        if won_after(m, cb, p, acols[k - 1] as int) > max_won(m, cb, p, acols, k - 1) {
            assert(won_after(m, cb, p, acols[k - 1] as int) == max_won(m, cb, p, acols, k));
        }
    } else {
        assert(won_after(m, cb, p, acols[0] as int) == max_won(m, cb, p, acols, k));
    }
}

/// What a move of `p` that left the board `cb` open comes to: a verdict for
/// `p`, the best outlook of the opponent turned one ply earlier; or, with no
/// verdict, the keys of the positions it waits on.
pub open spec fn reply_result(m: Map<GameHash, GameState>, cb: Field, p: Player) -> (
    Option<Score>,
    Seq<GameHash>,
) {
    let acols = open_columns(cb, WIDTH as int);
    if acols.len() == 0 {
        (Some(one_ply_earlier(Score::Remis(0))), Seq::empty())
    } else {
        let st = reply_scan(m, cb, p, acols, acols.len() as int);
        if st.0 is Some {
            (Some(one_ply_earlier(Score::Won(st.0->0))), Seq::empty())
        } else if st.1.len() > 0 {
            (None, st.1)
        } else if st.2 is Some {
            (Some(one_ply_earlier(Score::Remis(st.2->0))), Seq::empty())
        } else if st.3 is Some {
            (Some(one_ply_earlier(Score::Lost(st.3->0))), Seq::empty())
        } else {
            (None, st.1)
        }
    }
}

proof fn lemma_reply_scan_frozen(
    m: Map<GameHash, GameState>,
    cb: Field,
    p: Player,
    acols: Seq<nat>,
    j: int,
    k: int,
)
    requires
        0 <= j <= k <= acols.len(),
        reply_scan(m, cb, p, acols, j).0 is Some,
    ensures
        reply_scan(m, cb, p, acols, k) == reply_scan(m, cb, p, acols, j),
    decreases k - j,
{
    if k > j {
        lemma_reply_scan_frozen(m, cb, p, acols, j, k - 1);
    }
}

/// The keys a reply scan waits on are positions one reply away from `cb`
/// that the store has no verdict for.
proof fn lemma_reply_scan_genuine(
    m: Map<GameHash, GameState>,
    cb: Field,
    p: Player,
    acols: Seq<nat>,
    k: int,
)
    requires
        field_wf(cb),
        0 <= k <= acols.len(),
        forall|j: int| 0 <= j < acols.len() ==> #[trigger] playable(cb, acols[j] as int),
    ensures
        forall|i: int|
            0 <= i < reply_scan(m, cb, p, acols, k).1.len() ==> undecided_in(
                m,
                #[trigger] reply_scan(m, cb, p, acols, k).1[i],
            ) && exists|d: int|
                #[trigger] playable(cb, d) && reply_scan(m, cb, p, acols, k).1[i] == field_code(
                    dropped(cb, d, opponent_of(p)),
                ),
    decreases k,
{
    if k > 0 {
        lemma_reply_scan_genuine(m, cb, p, acols, k - 1);
        let prev = reply_scan(m, cb, p, acols, k - 1);
        let cur = reply_scan(m, cb, p, acols, k);
        let d = acols[k - 1] as int;
        assert(playable(cb, d));
        if !(prev.0 is Some) && reply_outlook(m, cb, p, d) is Undecided {
            let q = opponent_of(p);
            let g = dropped(cb, d, q);
            let h = field_code(g) as GameHash;
            lemma_dropped_keeps_wf(cb, d, q);
            lemma_key_fits(g);
            assert(cur.1 == prev.1.push(h));
            assert forall|i: int| 0 <= i < cur.1.len() implies undecided_in(m, #[trigger] cur.1[i])
                && exists|d2: int|
                #[trigger] playable(cb, d2) && cur.1[i] == field_code(dropped(cb, d2, q)) by {
                if i < prev.1.len() {
                    assert(cur.1[i] == prev.1[i]);
                } else {
                    assert(cur.1[i] == h);
                    assert(playable(cb, d));
                }
            }
        }
    }
}

/// The keys a move waits on are positions one reply away from `cb` that
/// the store has no verdict for.
proof fn lemma_reply_result_genuine(m: Map<GameHash, GameState>, cb: Field, p: Player)
    requires
        field_wf(cb),
    ensures
        forall|i: int|
            0 <= i < reply_result(m, cb, p).1.len() ==> undecided_in(
                m,
                #[trigger] reply_result(m, cb, p).1[i],
            ) && exists|d: int|
                #[trigger] playable(cb, d) && reply_result(m, cb, p).1[i] == field_code(
                    dropped(cb, d, opponent_of(p)),
                ),
{
    let acols = open_columns(cb, WIDTH as int);
    lemma_open_columns_playable(cb, WIDTH as int);
    lemma_reply_scan_genuine(m, cb, p, acols, acols.len() as int);
    let r = reply_result(m, cb, p);
    if acols.len() > 0 {
        let st = reply_scan(m, cb, p, acols, acols.len() as int);
        if r.1 == st.1 {
            assert forall|i: int| 0 <= i < r.1.len() implies undecided_in(m, #[trigger] r.1[i])
                && exists|d: int|
                #[trigger] playable(cb, d) && r.1[i] == field_code(dropped(cb, d, opponent_of(p))) by {
                assert(r.1[i] == st.1[i]);
            }
        } else {
            assert(r.1 =~= Seq::<GameHash>::empty());
        }
    } else {
        assert(r.1 =~= Seq::<GameHash>::empty());
    }
    assert forall|i: int| 0 <= i < reply_result(m, cb, p).1.len() implies undecided_in(
        m,
        #[trigger] reply_result(m, cb, p).1[i],
    ) && exists|d: int|
        #[trigger] playable(cb, d) && reply_result(m, cb, p).1[i] == field_code(
            dropped(cb, d, opponent_of(p)),
        ) by {
        assert(r.1[i] == reply_result(m, cb, p).1[i]);
        assert(undecided_in(m, r.1[i]));
        let d = choose|d: int|
            #[trigger] playable(cb, d) && r.1[i] == field_code(dropped(cb, d, opponent_of(p)));
        assert(playable(cb, d));
    }
}

/// The opponent's replies to a move of `p` that left the board `cf` open.
/// Each reply has an outlook for the opponent: its own score one ply on, or
/// the verdict for `p` of the position it leads to, turned one ply earlier.
/// A winning reply dooms the move; else any reply still open leaves the move
/// open; else the first drawn reply; else every reply loses for the
/// opponent, who picks the latest loss. The move's verdict for `p` is that
/// outlook turned one ply earlier.
fn reply_outcome(cf: &mut ConnectFour, store: &GameStore, p: Player) -> (r: MoveOutcome)
    requires
        old(cf).wf(),
    ensures
        final(cf).wf(),
        final(cf)@ == old(cf)@,
        r matches MoveOutcome::Decided(s) ==> reply_result(store@, old(cf)@, p) == (
            Some(s),
            Seq::<GameHash>::empty(),
        ),
        r matches MoveOutcome::Open(hs) ==> reply_result(store@, old(cf)@, p) == (
            None::<Score>,
            hs@,
        ),
{
    let ghost b = cf@;
    assert(b == old(cf)@);
    let ghost open = open_columns(b, WIDTH as int);
    proof {
        lemma_open_columns_playable(b, WIDTH as int);
    }
    let opp = p.opponent();
    let anti_options = cf.possible_moves(&opp);
    if anti_options.len() == 0 {
        return MoveOutcome::Decided(earlier(Score::Remis(0)));
    }
    let mut doomed: Option<u32> = None;
    let mut anti_draw: Option<u32> = None;
    let mut anti_doomed: Option<u32> = None;
    let mut anti_open: Vec<GameHash> = Vec::new();
    let mut i: usize = 0;
    while i < anti_options.len() && doomed.is_none()
        invariant
            cf.wf(),
            cf@ == b,
            opp == opponent_of(p),
            open == open_columns(b, WIDTH as int),
            anti_options@.len() == open.len(),
            forall|k: int|
                0 <= k < anti_options@.len() ==> col_index(#[trigger] anti_options@[k].data)
                    == open[k],
            forall|k: int|
                0 <= k < open.len() ==> #[trigger] playable(b, open[k] as int) && open[k] < WIDTH,
            i <= anti_options@.len(),
            (doomed, anti_open@, anti_draw, anti_doomed) == reply_scan(
                store@,
                b,
                p,
                open,
                i as int,
            ),
        decreases anti_options@.len() - i,
    {
        let mv = anti_options[i];
        assert(col_index(anti_options@[i as int].data) == open[i as int]);
        let ghost d = open[i as int] as int;
        let score = cf.make_move(&opp, &mv);
        proof {
            lemma_lift_dropped(b, d, opp);
            lemma_dropped_keeps_wf(b, d, opp);
        }
        let outlook = match score {
            Ok(Score::Undecided) => {
                let st = cf.state();
                proof {
                    assert(columns_fit(field_view(*st)));
                }
                let hash = hash_from_state(st);
                assert(hash == field_code(dropped(b, d, opponent_of(p))));
                let verdict = match store.lookup(hash) {
                    Some(GameState::Decided(v, _)) => v,
                    Some(_) => Score::Undecided,
                    None => {
                        let mut gc = cf.clone();
                        match find_best_move(&mut gc, &p, 2) {
                            (_, Some(v)) => v,
                            (_, None) => Score::Undecided,
                        }
                    },
                };
                if let Score::Undecided = verdict {
                    anti_open.push(hash);
                }
                earlier(verdict)
            },
            Ok(s) => earlier_immediate(s),
            Err(_) => Score::Undecided,
        };
        assert(outlook == reply_outlook(store@, b, p, d));
        match outlook {
            Score::Won(k) => {
                doomed = Some(k);
            },
            Score::Lost(k) => {
                match anti_doomed {
                    Some(x) => {
                        if k > x {
                            anti_doomed = Some(k);
                        }
                    },
                    None => {
                        anti_doomed = Some(k);
                    },
                }
            },
            Score::Remis(k) => {
                if anti_draw.is_none() {
                    anti_draw = Some(k);
                }
            },
            Score::Undecided => {},
        }
        cf.withdraw_move(&opp, &mv);
        i += 1;
    }
    proof {
        if i < open.len() {
            lemma_reply_scan_frozen(store@, b, p, open, i as int, open.len() as int);
        }
    }
    let r = if let Some(k) = doomed {
        MoveOutcome::Decided(earlier(Score::Won(k)))
    } else if anti_open.len() > 0 {
        MoveOutcome::Open(anti_open)
    } else if let Some(k) = anti_draw {
        MoveOutcome::Decided(earlier(Score::Remis(k)))
    } else if let Some(k) = anti_doomed {
        MoveOutcome::Decided(earlier(Score::Lost(k)))
    } else {
        MoveOutcome::Open(anti_open)
    };
    r
}


/// What a move of `p` into column `c` of `b` comes to in the two-ply
/// look-ahead: a verdict for `p`, open while it waits, and the keys of the
/// positions it waits on.
pub open spec fn move_verdict(m: Map<GameHash, GameState>, b: Field, p: Player, c: int) -> (
    Score,
    Seq<GameHash>,
) {
    let s = score_of(dropped(b, c, p), c, p);
    if s is Undecided {
        let rr = reply_result(m, dropped(b, c, p), p);
        match rr.0 {
            Some(v) => (v, Seq::empty()),
            None => (Score::Undecided, rr.1),
        }
    } else {
        (one_ply_on(s), Seq::empty())
    }
}

/// The own moves among the first `k` columns of `cols`: the first that
/// forces a win, the first draw, the latest loss (the first of equally late
/// ones), and the keys the open moves wait on. Nothing more is looked at
/// once a win is forced.
pub open spec fn inquiry_scan(
    m: Map<GameHash, GameState>,
    b: Field,
    p: Player,
    cols: Seq<nat>,
    k: int,
) -> (Option<(u32, Column)>, Option<(u32, Column)>, Option<(u32, Column)>, Seq<GameHash>)
    decreases (if k > 0 {
        k
    } else {
        0
    }),
{
    if k <= 0 || k > cols.len() {
        (None, None, None, Seq::empty())
    } else {
        let prev = inquiry_scan(m, b, p, cols, k - 1);
        if prev.0 is Some {
            prev
        } else {
            let c = cols[k - 1];
            let mv = move_verdict(m, b, p, c as int);
            let keys = prev.3 + mv.1;
            match mv.0 {
                Score::Won(n) => (Some((n, column_at(c))), prev.1, prev.2, keys),
                Score::Remis(n) => (
                    prev.0,
                    if prev.1 is Some {
                        prev.1
                    } else {
                        Some((n, column_at(c)))
                    },
                    prev.2,
                    keys,
                ),
                Score::Lost(n) => (
                    prev.0,
                    prev.1,
                    if prev.2 is Some && n <= (prev.2->0).0 {
                        prev.2
                    } else {
                        Some((n, column_at(c)))
                    },
                    keys,
                ),
                Score::Undecided => (prev.0, prev.1, prev.2, keys),
            }
        }
    }
}

/// The two-ply look-ahead's result for the position `b` with `p` to move,
/// against the store `m`: the state to record and the keys waited on.
pub open spec fn inquiry(m: Map<GameHash, GameState>, b: Field, p: Player) -> (
    GameState,
    Seq<GameHash>,
) {
    let cols = open_columns(b, WIDTH as int);
    if cols.len() == 0 {
        (GameState::Decided(Score::Remis(0), None), Seq::empty())
    } else if first_win(b, p, cols, cols.len() as int) is Some {
        (GameState::Decided(Score::Won(1), first_win(b, p, cols, cols.len() as int)), Seq::empty())
    } else {
        let st = inquiry_scan(m, b, p, cols, cols.len() as int);
        if st.0 is Some {
            (GameState::Decided(Score::Won((st.0->0).0), Some((st.0->0).1)), Seq::empty())
        } else if st.3.len() > 0 {
            (GameState::Undecided, st.3)
        } else if st.1 is Some {
            (GameState::Decided(Score::Remis((st.1->0).0), Some((st.1->0).1)), Seq::empty())
        } else if st.2 is Some {
            (GameState::Decided(Score::Lost((st.2->0).0), Some((st.2->0).1)), Seq::empty())
        } else {
            (GameState::Undecided, Seq::empty())
        }
    }
}

proof fn lemma_inquiry_scan_frozen(
    m: Map<GameHash, GameState>,
    b: Field,
    p: Player,
    cols: Seq<nat>,
    j: int,
    k: int,
)
    requires
        0 <= j <= k <= cols.len(),
        inquiry_scan(m, b, p, cols, j).0 is Some,
    ensures
        inquiry_scan(m, b, p, cols, k) == inquiry_scan(m, b, p, cols, j),
    decreases k - j,
{
    if k > j {
        lemma_inquiry_scan_frozen(m, b, p, cols, j, k - 1);
    }
}

/// Appends `hs` to `acc`.
fn append_keys(acc: &mut Vec<GameHash>, hs: &Vec<GameHash>)
    ensures
        final(acc)@ == old(acc)@ + hs@,
{
    let mut k: usize = 0;
    while k < hs.len()
        invariant
            k <= hs@.len(),
            acc@ == old(acc)@ + hs@.subrange(0, k as int),
        decreases hs@.len() - k,
    {
        acc.push(hs[k]);
        k += 1;
        assert(hs@.subrange(0, k as int) == hs@.subrange(0, k - 1).push(hs@[k - 1]));
    }
    assert(hs@.subrange(0, hs@.len() as int) =~= hs@);
}

/// Decides the position of key `game_hash`, with `p` to move, from the
/// board and the store two plies ahead. A move that wins at once is taken
/// first. Otherwise each move is judged by the opponent's replies: a move
/// that forces a win decides; else moves still waiting on positions two
/// plies on leave the position undecided and name those positions; else the
/// first draw; else the loss that comes latest.
pub fn two_moves_ahead_inquiry(store: &GameStore, game_hash: GameHash, p: &Player) -> (r: (
    GameState,
    Vec<GameHash>,
))
    requires
        game_hash >= 0,
    ensures
        ({
            let b = field_of(game_hash as int, WIDTH as nat);
            let open = open_columns(b, WIDTH as int);
            &&& open.len() == 0 ==> r.0 == GameState::Decided(Score::Remis(0), None)
            &&& has_immediate_win(b, *p) ==> exists|k: int|
                0 <= k < open.len() && r.0 == GameState::Decided(Score::Won(1), Some(#[trigger] column_at(open[k])))
                    && wins_at(b, open[k] as int, *p) && forall|j: int|
                    0 <= j < k ==> !#[trigger] wins_at(b, open[j] as int, *p)
            &&& r.0 is Decided || r.0 is Undecided
            &&& r.0 is Decided ==> r.1@.len() == 0
            &&& r.0 matches GameState::Decided(s, c) ==> !(s is Undecided) && (c is Some ==> playable(
                b,
                col_index(c->0) as int,
            ))
            &&& genuine_interests(store@, b, *p, r.1@)
            &&& (r.0, r.1@) == inquiry(store@, b, *p)
        }),
{
    let mut cf = game_from_hash(game_hash);
    let ghost b = cf@;
    let ghost open = open_columns(b, WIDTH as int);
    proof {
        lemma_open_columns_playable(b, WIDTH as int);
    }
    let options = cf.possible_moves(p);
    if options.len() == 0 {
        return (GameState::Decided(Score::Remis(0), None), Vec::new());
    }
    let mut win: Option<(Column, u32)> = None;
    let mut i: usize = 0;
    while i < options.len() && win.is_none()
        invariant
            cf.wf(),
            cf@ == b,
            open == open_columns(b, WIDTH as int),
            options@.len() == open.len(),
            forall|k: int| 0 <= k < options@.len() ==> col_index(#[trigger] options@[k].data) == open[k],
            forall|k: int|
                0 <= k < open.len() ==> #[trigger] playable(b, open[k] as int) && open[k] < WIDTH,
            i <= options@.len(),
            win is Some ==> 0 < i && (win->0).0 == column_at(open[i - 1]) && wins_at(
                b,
                open[i - 1] as int,
                *p,
            ) && (win->0).1 == 0,
            win is Some ==> forall|k: int| 0 <= k < i - 1 ==> !#[trigger] wins_at(b, open[k] as int, *p),
            win is None ==> forall|k: int| 0 <= k < i ==> !#[trigger] wins_at(b, open[k] as int, *p),
            win is Some ==> first_win(b, *p, open, i as int) == Some((win->0).0),
            win is None ==> first_win(b, *p, open, i as int) is None,
        decreases options@.len() - i,
    {
        let mv = options[i];
        assert(col_index(options@[i as int].data) == open[i as int]);
        let score = cf.make_move(p, &mv);
        proof {
            lemma_lift_dropped(b, open[i as int] as int, *p);
            lemma_column_at(mv.data);
        }
        if let Ok(Score::Won(n)) = score {
            win = Some((mv.data, n));
        }
        cf.withdraw_move(p, &mv);
        i += 1;
    }
    if let Some((c, n)) = win {
        let r = (GameState::Decided(Score::Won(later_by(n, 1)), Some(c)), Vec::new());
        proof {
            let k = i - 1;
            assert(wins_at(b, open[k] as int, *p));
            assert(r.0 == GameState::Decided(Score::Won(1), Some(column_at(open[k]))));
            assert(forall|j: int| 0 <= j < k ==> !#[trigger] wins_at(b, open[j] as int, *p));
            assert(playable(b, open[k] as int));
            assert(col_index(column_at(open[k])) == open[k]);
            assert(playable(b, col_index(c) as int));
            assert(r.1@.len() == 0);
            lemma_first_win_stable(b, *p, open, i as int, open.len() as int);
            assert(r.1@ =~= Seq::<GameHash>::empty());
        }
        return r;
    }
    assert(!has_immediate_win(b, *p));
    assert(first_win(b, *p, open, open.len() as int) is None);
    let mut forced: Option<(u32, Column)> = None;
    let mut draw: Option<(u32, Column)> = None;
    let mut doomed: Option<(u32, Column)> = None;
    let mut open_moves: Vec<GameHash> = Vec::new();
    let mut j: usize = 0;
    while j < options.len() && forced.is_none()
        invariant
            cf.wf(),
            cf@ == b,
            open == open_columns(b, WIDTH as int),
            options@.len() == open.len(),
            forall|k: int| 0 <= k < options@.len() ==> col_index(#[trigger] options@[k].data) == open[k],
            forall|k: int|
                0 <= k < open.len() ==> #[trigger] playable(b, open[k] as int) && open[k] < WIDTH,
            j <= options@.len(),
            forced is Some ==> playable(b, col_index((forced->0).1) as int),
            draw is Some ==> playable(b, col_index((draw->0).1) as int),
            doomed is Some ==> playable(b, col_index((doomed->0).1) as int),
            genuine_interests(store@, b, *p, open_moves@),
            (forced, draw, doomed, open_moves@) == inquiry_scan(store@, b, *p, open, j as int),
        decreases options@.len() - j,
    {
        let mv = options[j];
        assert(col_index(options@[j as int].data) == open[j as int]);
        let ghost c = open[j as int] as int;
        assert(playable(b, c));
        let score = cf.make_move(p, &mv);
        proof {
            lemma_lift_dropped(b, c, *p);
            lemma_dropped_keeps_wf(b, c, *p);
        }
        let verdict = match score {
            Ok(Score::Undecided) => {
                let ghost child = cf@;
                match reply_outcome(&mut cf, store, *p) {
                    MoveOutcome::Decided(v) => v,
                    MoveOutcome::Open(hs) => {
                        proof {
                            lemma_reply_result_genuine(store@, child, *p);
                            assert(hs@ == reply_result(store@, child, *p).1);
                            assert forall|i: int| 0 <= i < hs@.len() implies undecided_in(
                                store@,
                                #[trigger] hs@[i],
                            ) && exists|d: int|
                                #[trigger] playable(child, d) && hs@[i] == field_code(
                                    dropped(child, d, opponent_of(*p)),
                                ) by {
                                assert(hs@[i] == reply_result(store@, child, *p).1[i]);
                            }
                        }
                        let ghost before = open_moves@;
                        append_keys(&mut open_moves, &hs);
                        proof {
                            assert forall|k: int| 0 <= k < open_moves@.len() implies is_grandchild_key(
                                b,
                                *p,
                                #[trigger] open_moves@[k],
                            ) && undecided_in(store@, open_moves@[k]) by {
                                if k < before.len() {
                                    assert(open_moves@[k] == before[k]);
                                } else {
                                    assert(open_moves@[k] == hs@[k - before.len()]);
                                    let d = choose|d: int|
                                        #[trigger] playable(child, d) && hs@[k - before.len()]
                                            == field_code(dropped(child, d, opponent_of(*p)));
                                    assert(playable(b, c) && playable(dropped(b, c, *p), d));
                                }
                            }
                        }
                        Score::Undecided
                    },
                }
            },
            Ok(v) => earlier_immediate(v),
            Err(_) => Score::Undecided,
        };
        match verdict {
            Score::Won(n) => {
                forced = Some((n, mv.data));
            },
            Score::Remis(n) => {
                if draw.is_none() {
                    draw = Some((n, mv.data));
                }
            },
            Score::Lost(n) => {
                match doomed {
                    Some((x, _)) => {
                        if n > x {
                            doomed = Some((n, mv.data));
                        }
                    },
                    None => {
                        doomed = Some((n, mv.data));
                    },
                }
            },
            Score::Undecided => {},
        }
        cf.withdraw_move(p, &mv);
        j += 1;
    }
    proof {
        if j < open.len() {
            lemma_inquiry_scan_frozen(store@, b, *p, open, j as int, open.len() as int);
        }
    }
    if let Some((n, c)) = forced {
        (GameState::Decided(Score::Won(n), Some(c)), Vec::new())
    } else if open_moves.len() > 0 {
        (GameState::Undecided, open_moves)
    } else if let Some((n, c)) = draw {
        (GameState::Decided(Score::Remis(n), Some(c)), Vec::new())
    } else if let Some((n, c)) = doomed {
        (GameState::Decided(Score::Lost(n), Some(c)), Vec::new())
    } else {
        (GameState::Undecided, Vec::new())
    }
}

/// The verdict for the mover of a move whose own score, from the board alone,
/// is `s`: each outcome is one ply further away.
fn earlier_immediate(s: Score) -> (r: Score)
    ensures
        r == one_ply_on(s),
{
    match s {
        Score::Won(n) => Score::Won(later_by(n, 1)),
        Score::Lost(n) => Score::Lost(later_by(n, 1)),
        Score::Remis(n) => Score::Remis(later_by(n, 1)),
        Score::Undecided => Score::Undecided,
    }
}



/// std::time::Instant, carried through unopened: a moment to measure from.
#[verifier::external_type_specification]
#[verifier::external_body]
pub struct ExInstant(std::time::Instant);

/// Relies on std::time::Instant::now: the current moment; nothing is known of it.
#[verifier::external_body]
fn now() -> std::time::Instant {
    std::time::Instant::now()
}

/// Relies on std::time::Instant::elapsed: the time since `since`; any value.
#[verifier::external_body]
fn elapsed(since: &std::time::Instant) -> std::time::Duration {
    since.elapsed()
}

/// Relies on std::time::Duration::as_millis: whole milliseconds; any value.
#[verifier::external_body]
fn as_millis(d: &std::time::Duration) -> u128 {
    d.as_millis()
}

/// Deepest search worth running: a board holds no more plies than this.
pub const MAX_DEPTH: i32 = 42;

/// Why a job could not be worked on.
#[derive(PartialEq, Eq, Debug, Clone, Copy, Structural)]
pub enum JobError {
    /// The key has no store entry.
    NoRecord,
    /// The key is not claimed for exploration.
    NotClaimed,
    /// The key is negative, which no position has.
    BadKey,
}

/// Whether the job for `hash` explores it for the first time (`Novel`) or
/// again (`Recall`); any other entry, or none, means the job must not run.
pub fn lock_hash(store: &GameStore, hash: GameHash) -> (r: Result<bool, JobError>)
    ensures
        !store@.contains_key(hash) ==> r == Err::<bool, JobError>(JobError::NoRecord),
        store@.contains_key(hash) ==> match store@[hash] {
            GameState::Novel => r == Ok::<bool, JobError>(true),
            GameState::Recall => r == Ok::<bool, JobError>(false),
            _ => r == Err::<bool, JobError>(JobError::NotClaimed),
        },
{
    match store.lookup(hash) {
        Some(GameState::Novel) => Ok(true),
        Some(GameState::Recall) => Ok(false),
        Some(_) => Err(JobError::NotClaimed),
        None => Err(JobError::NoRecord),
    }
}

/// The first column that wins at once for `p` is `c`.
pub open spec fn first_win_is(b: Field, p: Player, c: Column) -> bool {
    let open = open_columns(b, WIDTH as int);
    exists|k: int|
        0 <= k < open.len() && c == #[trigger] column_at(open[k]) && wins_at(b, open[k] as int, p)
            && forall|j: int| 0 <= j < k ==> !#[trigger] wins_at(b, open[j] as int, p)
}

/// The depth the fallback search begins at: the lookahead, at most `MAX_DEPTH`.
pub open spec fn start_depth(moves_ahead: i32) -> int {
    if moves_ahead > MAX_DEPTH {
        MAX_DEPTH as int
    } else {
        moves_ahead as int
    }
}

/// The first fallback search, at the starting depth, already decides.
pub open spec fn first_search_decides(b: Field, p: Player, moves_ahead: i32) -> bool {
    let r = best(b, p, start_depth(moves_ahead));
    r.0 is Some && r.1 is Some && !(r.1->0 is Undecided)
}

/// The fallback search picked column `c` with score `s` for `p` on `b`, at
/// some depth from `moves_ahead` (at most `MAX_DEPTH`) up to `MAX_DEPTH`.
pub open spec fn searched_to(b: Field, p: Player, moves_ahead: i32, s: Score, c: Column) -> bool {
    exists|dd: int|
        (if moves_ahead > MAX_DEPTH {
            MAX_DEPTH as int
        } else {
            moves_ahead as int
        }) <= dd <= MAX_DEPTH && #[trigger] best(b, p, dd) == (Some(c), Some(s))
}

/// Runs the fallback search `moves_ahead` plies deep, and one ply deeper
/// each time the search stays open and took less than `limit_millis`
/// milliseconds, up to `MAX_DEPTH`.
pub fn game_simulation(moves_ahead: i32, g: &mut ConnectFour, p: &Player, limit_millis: u128) -> (r:
    GameState)
    requires
        old(g).wf(),
    ensures
        final(g).wf(),
        final(g)@ == old(g)@,
        r is Undecided || (r matches GameState::Decided(s, Some(c)) && !(s is Undecided)
            && playable(old(g)@, col_index(c) as int)),
        has_immediate_win(old(g)@, *p) ==> (r matches GameState::Decided(Score::Won(0), Some(c))
            && first_win_is(old(g)@, *p, c)),
        r matches GameState::Decided(s, Some(c)) ==> searched_to(old(g)@, *p, moves_ahead, s, c),
        first_search_decides(old(g)@, *p, moves_ahead) ==> r == GameState::Decided(
            best(old(g)@, *p, start_depth(moves_ahead)).1->0,
            best(old(g)@, *p, start_depth(moves_ahead)).0,
        ),
        limit_millis == 0 && !first_search_decides(old(g)@, *p, moves_ahead) ==> r
            == GameState::Undecided,
{
    let ghost b = g@;
    assert(b == old(g)@);
    let start: i32 = if moves_ahead > MAX_DEPTH {
        MAX_DEPTH
    } else {
        moves_ahead
    };
    let mut depth: i32 = start;
    let mut then = now();
    let mut result: Option<GameState> = None;
    while result.is_none()
        invariant
            g.wf(),
            g@ == b,
            depth <= MAX_DEPTH,
            result matches Some(s) ==> (s is Undecided || (s matches GameState::Decided(
                v,
                Some(c),
            ) && !(v is Undecided) && playable(b, col_index(c) as int))),
            depth >= start,
            start == (if moves_ahead > MAX_DEPTH {
                MAX_DEPTH
            } else {
                moves_ahead
            }),
            first_search_decides(b, *p, moves_ahead) ==> (result is None ==> depth == start) && (
            result is Some ==> result->0 == GameState::Decided(
                best(b, *p, start_depth(moves_ahead)).1->0,
                best(b, *p, start_depth(moves_ahead)).0,
            )),
            start == start_depth(moves_ahead),
            limit_millis == 0 ==> depth == start,
            limit_millis == 0 && result is Some && !first_search_decides(b, *p, moves_ahead)
                ==> result->0 == GameState::Undecided,
            result matches Some(GameState::Decided(s, Some(c))) ==> searched_to(
                b,
                *p,
                moves_ahead,
                s,
                c,
            ),
            result is Some && has_immediate_win(b, *p) ==> (result->0 matches GameState::Decided(
                Score::Won(0),
                Some(c),
            ) && first_win_is(b, *p, c)),
        decreases (MAX_DEPTH - depth) + (if result is None {
            1int
        } else {
            0int
        }),
    {
        let found = find_best_move(g, p, depth);
        match found {
            (Some(c), Some(Score::Undecided)) => {
                let took = as_millis(&elapsed(&then));
                if took >= limit_millis || depth >= MAX_DEPTH {
                    result = Some(GameState::Undecided);
                } else {
                    depth += 1;
                    then = now();
                }
            },
            (Some(c), Some(s)) => {
                proof {
                    lemma_column_at(c);
                    if has_immediate_win(b, *p) {
                        let open = open_columns(b, WIDTH as int);
                        let k = choose|k: int|
                            0 <= k < open.len() && col_index(c) == open[k] && wins_at(
                                b,
                                open[k] as int,
                                *p,
                            ) && forall|j: int|
                                0 <= j < k ==> !#[trigger] wins_at(b, open[j] as int, *p);
                        assert(c == column_at(open[k]));
                    }
                }
                result = Some(GameState::Decided(s, Some(c)));
            },
            _ => {
                result = Some(GameState::Undecided);
            },
        }
    }
    match result {
        Some(s) => s,
        None => GameState::Undecided,
    }
}

/// One job: the position of key `hash`, with `p` to move. A first visit runs
/// the fallback search before anything else; then the store is consulted two
/// plies ahead. The result is the state to record and the keys whose
/// verdicts the position is still waiting for.
pub fn do_the_job(
    store: &GameStore,
    moves_ahead: i32,
    limit_millis: u128,
    hash: GameHash,
    p: &Player,
) -> (r: Result<(GameState, Vec<GameHash>), JobError>)
    ensures
        hash < 0 ==> r == Err::<(GameState, Vec<GameHash>), JobError>(JobError::BadKey),
        hash >= 0 && !store@.contains_key(hash) ==> r == Err::<(GameState, Vec<GameHash>), JobError>(
            JobError::NoRecord,
        ),
        hash >= 0 && store@.contains_key(hash) && !(store@[hash] is Novel || store@[hash] is Recall)
            ==> r == Err::<(GameState, Vec<GameHash>), JobError>(JobError::NotClaimed),
        r is Ok <==> hash >= 0 && store@.contains_key(hash) && (store@[hash] is Novel
            || store@[hash] is Recall),
        r matches Ok((s, hs)) ==> {
            let b = field_of(hash as int, WIDTH as nat);
            &&& s is Decided || s is Undecided
            &&& s is Decided ==> hs@.len() == 0
            &&& s matches GameState::Decided(v, c) ==> !(v is Undecided) && (c is Some
                ==> playable(b, col_index(c->0) as int))
            &&& genuine_interests(store@, b, *p, hs@)
            &&& has_immediate_win(b, *p) ==> (s matches GameState::Decided(Score::Won(n), Some(c))
                && first_win_is(b, *p, c) && (store@[hash] is Novel ==> n == 0) && (
            store@[hash] is Recall ==> n == 1))
            &&& store@[hash] is Recall ==> (s, hs@) == inquiry(store@, b, *p)
            &&& store@[hash] is Novel ==> (s, hs@) == inquiry(store@, b, *p) || (s matches GameState::Decided(v, Some(c)) && hs@.len() == 0 && searched_to(b, *p, moves_ahead, v, c))
            &&& store@[hash] is Novel && first_search_decides(b, *p, moves_ahead) ==> s
                == GameState::Decided(
                best(b, *p, start_depth(moves_ahead)).1->0,
                best(b, *p, start_depth(moves_ahead)).0,
            ) && hs@.len() == 0
            &&& store@[hash] is Novel && limit_millis == 0 && !first_search_decides(b, *p, moves_ahead)
                ==> (s, hs@) == inquiry(store@, b, *p)
        },
{
    if hash < 0 {
        return Err(JobError::BadKey);
    }
    let new = match lock_hash(store, hash) {
        Err(e) => {
            return Err(e);
        },
        Ok(new) => new,
    };
    if new {
        let mut game = game_from_hash(hash);
        match game_simulation(moves_ahead, &mut game, p, limit_millis) {
            GameState::Decided(verdict, mv) => {
                return Ok((GameState::Decided(verdict, mv), Vec::new()));
            },
            _ => {},
        }
    }
    let (state, interests) = two_moves_ahead_inquiry(store, hash, p);
    proof {
        let b = field_of(hash as int, WIDTH as nat);
        if has_immediate_win(b, *p) {
            let open = open_columns(b, WIDTH as int);
            let k = choose|k: int|
                0 <= k < open.len() && state == GameState::Decided(
                    Score::Won(1),
                    Some(#[trigger] column_at(open[k])),
                ) && wins_at(b, open[k] as int, *p) && forall|j: int|
                    0 <= j < k ==> !#[trigger] wins_at(b, open[j] as int, *p);
            assert(first_win_is(b, *p, column_at(open[k])));
        }
    }
    Ok((state, interests))
}

} // verus!
