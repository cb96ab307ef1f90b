//! The bounded minimax search that workers run before they consult the store.
use vstd::prelude::*;
use crate::board::{
    Column, ConnectFour, Field, Player, Score, WIDTH, col_index, column_at, dropped, field_wf,
    lifted, open_columns, opponent_of, playable, score_of,
};

verus! {

/// Dropping a stone of `p` into column `c` wins at once.
pub open spec fn wins_at(b: Field, c: int, p: Player) -> bool {
    score_of(dropped(b, c, p), c, p) is Won
}

/// Some playable column wins at once for `p`.
pub open spec fn has_immediate_win(b: Field, p: Player) -> bool {
    exists|k: int|
        0 <= k < open_columns(b, WIDTH as int).len() && #[trigger] wins_at(
            b,
            open_columns(b, WIDTH as int)[k] as int,
            p,
        )
}

/// The distance carried by a decided score.
pub open spec fn distance(s: Score) -> int {
    match s {
        Score::Won(n) => n as int,
        Score::Lost(n) => n as int,
        Score::Remis(n) => n as int,
        Score::Undecided => 0,
    }
}

pub proof fn lemma_open_columns_playable(b: Field, n: int)
    ensures
        forall|k: int|
            0 <= k < open_columns(b, n).len() ==> #[trigger] playable(b, open_columns(b, n)[k] as int)
                && open_columns(b, n)[k] < n,
    decreases n,
{
    if n > 0 {
        lemma_open_columns_playable(b, n - 1);
        let prev = open_columns(b, n - 1);
        assert forall|k: int| 0 <= k < open_columns(b, n).len() implies #[trigger] playable(
            b,
            open_columns(b, n)[k] as int,
        ) && open_columns(b, n)[k] < n by {
            if k < prev.len() {
                assert(open_columns(b, n)[k] == prev[k]);
            }
        }
    }
}

/// Taking back a stone just dropped restores the board.
pub proof fn lemma_lift_dropped(b: Field, c: int, p: Player)
    requires
        playable(b, c),
    ensures
        lifted(dropped(b, c, p), c) == b,
{
    assert(dropped(b, c, p)[c].drop_last() =~= b[c]);
    assert(lifted(dropped(b, c, p), c) =~= b);
}

/// The outcome, for `p`, of dropping a stone into column `c` of `b` when
/// it does not decide the game at once: the best reply of the opponent,
/// searched `depth - 1` plies deeper, turned around; open when `depth` is
/// used up or the reply stays open.
pub open spec fn searched(b: Field, c: int, p: Player, depth: int) -> Score
    decreases (if depth > 0 {
        depth
    } else {
        0
    }), 0int, 0int,
{
    if depth <= 0 {
        Score::Undecided
    } else {
        match best(dropped(b, c, p), opponent_of(p), depth - 1).1 {
            Some(Score::Won(n)) => Score::Lost((n + 1) as u32),
            Some(Score::Remis(n)) => Score::Remis((n + 1) as u32),
            Some(Score::Lost(n)) => Score::Won((n + 1) as u32),
            _ => Score::Undecided,
        }
    }
}

/// What the search has found among the first `k` columns of `cols` whose
/// stone leaves the game open: the first move that forces a win, the first
/// that stays open, the last that draws, and the latest loss (the first of
/// equally late ones). Nothing more is looked at once a win is forced.
pub open spec fn scan(b: Field, p: Player, depth: int, cols: Seq<nat>, k: int) -> (
    Option<(Column, u32)>,
    Option<Column>,
    Option<(Column, u32)>,
    Option<(Column, u32)>,
)
    decreases (if depth > 0 {
        depth
    } else {
        0
    }), 1int, (if k > 0 {
        k
    } else {
        0
    }),
{
    if k <= 0 || k > cols.len() {
        (None, None, None, None)
    } else {
        let prev = scan(b, p, depth, cols, k - 1);
        let c = cols[k - 1];
        if prev.0 is Some || !(score_of(dropped(b, c as int, p), c as int, p) is Undecided) {
            prev
        } else {
            match searched(b, c as int, p, depth) {
                Score::Won(n) => (Some((column_at(c), n)), prev.1, prev.2, prev.3),
                Score::Undecided => (
                    prev.0,
                    if prev.1 is Some {
                        prev.1
                    } else {
                        Some(column_at(c))
                    },
                    prev.2,
                    prev.3,
                ),
                Score::Remis(n) => (prev.0, prev.1, Some((column_at(c), n)), prev.3),
                Score::Lost(n) => (
                    prev.0,
                    prev.1,
                    prev.2,
                    if prev.3 is Some && n <= (prev.3->0).1 {
                        prev.3
                    } else {
                        Some((column_at(c), n))
                    },
                ),
            }
        }
    }
}

/// The last of the first `k` columns of `cols` whose stone draws at once.
pub open spec fn last_draw(b: Field, p: Player, cols: Seq<nat>, k: int) -> Option<Column>
    decreases k,
{
    if k <= 0 || k > cols.len() {
        None
    } else if score_of(dropped(b, cols[k - 1] as int, p), cols[k - 1] as int, p) is Remis {
        Some(column_at(cols[k - 1]))
    } else {
        last_draw(b, p, cols, k - 1)
    }
}

/// The first of the first `k` columns of `cols` whose stone wins at once.
pub open spec fn first_win(b: Field, p: Player, cols: Seq<nat>, k: int) -> Option<Column>
    decreases k,
{
    if k <= 0 || k > cols.len() {
        None
    } else if first_win(b, p, cols, k - 1) is Some {
        first_win(b, p, cols, k - 1)
    } else if wins_at(b, cols[k - 1] as int, p) {
        Some(column_at(cols[k - 1]))
    } else {
        None
    }
}

/// The move the bounded search picks for `p` on `b`, and its score: a move
/// that wins at once, the first column first; else a move that forces a
/// win; else a move still open, which goes before any draw; else a draw;
/// else the loss that comes latest.
pub open spec fn best(b: Field, p: Player, depth: int) -> (Option<Column>, Option<Score>)
    decreases (if depth > 0 {
        depth
    } else {
        0
    }), 2int, 0int,
{
    let cols = open_columns(b, WIDTH as int);
    if cols.len() == 0 {
        (None, None)
    } else if first_win(b, p, cols, cols.len() as int) is Some {
        (first_win(b, p, cols, cols.len() as int), Some(Score::Won(0)))
    } else {
        let st = scan(b, p, depth, cols, cols.len() as int);
        if st.0 is Some {
            (Some((st.0->0).0), Some(Score::Won((st.0->0).1)))
        } else if st.1 is Some {
            (st.1, Some(Score::Undecided))
        } else if st.2 is Some {
            (Some((st.2->0).0), Some(Score::Remis((st.2->0).1)))
        } else if last_draw(b, p, cols, cols.len() as int) is Some {
            (last_draw(b, p, cols, cols.len() as int), Some(Score::Remis(0)))
        } else if st.3 is Some {
            (Some((st.3->0).0), Some(Score::Lost((st.3->0).1)))
        } else {
            (None, None)
        }
    }
}

/// A column that is one of `cols`.
pub open spec fn among(cols: Seq<nat>, c: Column) -> bool {
    exists|k: int| 0 <= k < cols.len() && c == #[trigger] column_at(cols[k])
}

pub open spec fn depth_bound(depth: int) -> int {
    (if depth > 0 {
        depth
    } else {
        0
    }) + 1
}

/// Once a first win is found, longer prefixes find the same one.
pub proof fn lemma_first_win_stable(b: Field, p: Player, cols: Seq<nat>, j: int, k: int)
    requires
        0 <= j <= k <= cols.len(),
        first_win(b, p, cols, j) is Some,
    ensures
        first_win(b, p, cols, k) == first_win(b, p, cols, j),
    decreases k - j,
{
    if k > j {
        lemma_first_win_stable(b, p, cols, j, k - 1);
    }
}

pub proof fn lemma_first_win(b: Field, p: Player, cols: Seq<nat>, k: int)
    requires
        0 <= k <= cols.len(),
    ensures
        first_win(b, p, cols, k) is Some <==> exists|j: int| 0 <= j < k && #[trigger] wins_at(
            b,
            cols[j] as int,
            p,
        ),
        first_win(b, p, cols, k) is Some ==> exists|j: int|
            0 <= j < k && first_win(b, p, cols, k) == Some(#[trigger] column_at(cols[j])) && wins_at(
                b,
                cols[j] as int,
                p,
            ) && forall|i: int| 0 <= i < j ==> !#[trigger] wins_at(b, cols[i] as int, p),
    decreases k,
{
    if k > 0 {
        lemma_first_win(b, p, cols, k - 1);
    }
}

proof fn lemma_last_draw(b: Field, p: Player, cols: Seq<nat>, k: int)
    requires
        0 <= k <= cols.len(),
    ensures
        last_draw(b, p, cols, k) matches Some(c) ==> among(cols, c),
    decreases k,
{
    if k > 0 {
        lemma_last_draw(b, p, cols, k - 1);
        assert(among(cols, column_at(cols[k - 1]))) by {
            assert(0 <= k - 1 < cols.len());
        }
    }
}

/// The search's distances stay within its depth, and the columns it picks
/// are among those open.
proof fn lemma_scan_facts(b: Field, p: Player, depth: int, cols: Seq<nat>, k: int)
    requires
        field_wf(b),
        depth <= i32::MAX,
        0 <= k <= cols.len(),
        forall|j: int| 0 <= j < cols.len() ==> #[trigger] playable(b, cols[j] as int),
    ensures
        ({
            let st = scan(b, p, depth, cols, k);
            &&& st.0 matches Some((c, n)) ==> among(cols, c) && 1 <= n <= depth_bound(depth)
            &&& st.1 matches Some(c) ==> among(cols, c)
            &&& st.2 matches Some((c, n)) ==> among(cols, c) && n <= depth_bound(depth)
            &&& st.3 matches Some((c, n)) ==> among(cols, c) && n <= depth_bound(depth)
        }),
    decreases (if depth > 0 {
        depth
    } else {
        0
    }), 1int, k,
{
    if k > 0 {
        lemma_scan_facts(b, p, depth, cols, k - 1);
        let c = cols[k - 1];
        assert(among(cols, column_at(c))) by {
            assert(column_at(c) == column_at(cols[k - 1]));
        }
        assert(playable(b, c as int));
        if depth > 0 {
            crate::board::lemma_dropped_keeps_wf(b, c as int, p);
            lemma_best_facts(dropped(b, c as int, p), opponent_of(p), depth - 1);
            let adv = best(dropped(b, c as int, p), opponent_of(p), depth - 1).1;
            if let Some(s) = adv {
                assert(distance(s) <= depth);
            }
        }
        let prev = scan(b, p, depth, cols, k - 1);
        let st = scan(b, p, depth, cols, k);
        if !(prev.0 is Some || !(score_of(dropped(b, c as int, p), c as int, p) is Undecided)) {
            let v = searched(b, c as int, p, depth);
            match v {
                Score::Won(n) => {
                    assert(1 <= n <= depth_bound(depth));
                },
                Score::Remis(n) => {
                    assert(n <= depth_bound(depth));
                },
                Score::Lost(n) => {
                    assert(n <= depth_bound(depth));
                },
                Score::Undecided => {},
            }
        }
    }
}

/// What callers need of `best`: the move is open, the distance is bounded,
/// and a move that wins at once is the first such column.
pub proof fn lemma_best_facts(b: Field, p: Player, depth: int)
    requires
        field_wf(b),
        depth <= i32::MAX,
    ensures
        best(b, p, depth).1 is None <==> best(b, p, depth).0 is None,
        best(b, p, depth).0 matches Some(c) ==> playable(b, col_index(c) as int),
        best(b, p, depth).1 matches Some(s) ==> distance(s) <= depth_bound(depth),
        best(b, p, depth).1 == Some(Score::Won(0)) <==> has_immediate_win(b, p),
        has_immediate_win(b, p) ==> exists|k: int|
            0 <= k < open_columns(b, WIDTH as int).len() && best(b, p, depth).0 == Some(
                #[trigger] column_at(open_columns(b, WIDTH as int)[k]),
            ) && wins_at(b, open_columns(b, WIDTH as int)[k] as int, p) && forall|j: int|
                0 <= j < k ==> !#[trigger] wins_at(b, open_columns(b, WIDTH as int)[j] as int, p),
    decreases (if depth > 0 {
        depth
    } else {
        0
    }), 2int, 0int,
{
    let cols = open_columns(b, WIDTH as int);
    lemma_open_columns_playable(b, WIDTH as int);
    lemma_first_win(b, p, cols, cols.len() as int);
    lemma_scan_facts(b, p, depth, cols, cols.len() as int);
    lemma_last_draw(b, p, cols, cols.len() as int);
    crate::board::lemma_column_at(Column::Zero);
    assert forall|c: Column| among(cols, c) implies playable(b, col_index(c) as int) by {
        let k = choose|k: int| 0 <= k < cols.len() && c == #[trigger] column_at(cols[k]);
        lemma_open_columns_playable(b, WIDTH as int);
        assert(playable(b, open_columns(b, WIDTH as int)[k] as int));
        assert(cols[k] < WIDTH);
        assert(col_index(column_at(cols[k])) == cols[k]);
    }
    if has_immediate_win(b, p) {
        let k = choose|k: int| 0 <= k < cols.len() && #[trigger] wins_at(b, cols[k] as int, p);
        assert(first_win(b, p, cols, cols.len() as int) is Some);
    }
    if first_win(b, p, cols, cols.len() as int) is Some {
        let j = choose|j: int|
            0 <= j < cols.len() && first_win(b, p, cols, cols.len() as int) == Some(
                #[trigger] column_at(cols[j]),
            ) && wins_at(b, cols[j] as int, p) && forall|i: int|
                0 <= i < j ==> !#[trigger] wins_at(b, cols[i] as int, p);
        assert(among(cols, column_at(cols[j])));
    }
}

/// Where each finding of a scan comes from: a column among the first `k`
/// whose stone leaves the game open and whose searched outcome it is.
proof fn lemma_scan_origin(b: Field, p: Player, depth: int, cols: Seq<nat>, k: int)
    requires
        0 <= k <= cols.len(),
    ensures
        ({
            let st = scan(b, p, depth, cols, k);
            &&& st.0 matches Some((c, n)) ==> exists|j: int|
                0 <= j < k && c == #[trigger] column_at(cols[j]) && score_of(
                    dropped(b, cols[j] as int, p),
                    cols[j] as int,
                    p,
                ) is Undecided && searched(b, cols[j] as int, p, depth) == Score::Won(n)
            &&& st.3 matches Some((c, n)) ==> exists|j: int|
                0 <= j < k && c == #[trigger] column_at(cols[j]) && score_of(
                    dropped(b, cols[j] as int, p),
                    cols[j] as int,
                    p,
                ) is Undecided && searched(b, cols[j] as int, p, depth) == Score::Lost(n)
        }),
    decreases k,
{
    if k > 0 {
        lemma_scan_origin(b, p, depth, cols, k - 1);
        let c = cols[k - 1];
        assert(column_at(c) == column_at(cols[k - 1]));
    }
}

/// A loss the search reports is the opponent's win one ply further down,
/// with one ply added: the column picked leads to a position that the
/// search, one ply shallower, scores as a win in `n - 1` for the opponent.
pub proof fn lemma_search_loss_distance(b: Field, p: Player, depth: int, n: u32)
    requires
        field_wf(b),
        depth <= i32::MAX,
        best(b, p, depth).1 == Some(Score::Lost(n)),
    ensures
        depth > 0,
        n >= 1,
        exists|j: int|
            0 <= j < open_columns(b, WIDTH as int).len() && best(b, p, depth).0 == Some(
                #[trigger] column_at(open_columns(b, WIDTH as int)[j]),
            ) && best(
                dropped(b, open_columns(b, WIDTH as int)[j] as int, p),
                opponent_of(p),
                depth - 1,
            ).1 == Some(Score::Won((n - 1) as u32)),
{
    let cols = open_columns(b, WIDTH as int);
    lemma_open_columns_playable(b, WIDTH as int);
    lemma_scan_origin(b, p, depth, cols, cols.len() as int);
    let st = scan(b, p, depth, cols, cols.len() as int);
    assert(st.3 is Some && (st.3->0).1 == n);
    let c = (st.3->0).0;
    let j = choose|j: int|
        0 <= j < cols.len() && c == #[trigger] column_at(cols[j]) && score_of(
            dropped(b, cols[j] as int, p),
            cols[j] as int,
            p,
        ) is Undecided && searched(b, cols[j] as int, p, depth) == Score::Lost(n);
    assert(depth > 0);
    crate::board::lemma_dropped_keeps_wf(b, cols[j] as int, p);
    lemma_best_facts(dropped(b, cols[j] as int, p), opponent_of(p), depth - 1);
}

/// A win the search reports that is not a win at once is the opponent's
/// loss one ply further down, with one ply added.
pub proof fn lemma_search_win_distance(b: Field, p: Player, depth: int, n: u32)
    requires
        field_wf(b),
        depth <= i32::MAX,
        best(b, p, depth).1 == Some(Score::Won(n)),
        n >= 1,
    ensures
        depth > 0,
        exists|j: int|
            0 <= j < open_columns(b, WIDTH as int).len() && best(b, p, depth).0 == Some(
                #[trigger] column_at(open_columns(b, WIDTH as int)[j]),
            ) && best(
                dropped(b, open_columns(b, WIDTH as int)[j] as int, p),
                opponent_of(p),
                depth - 1,
            ).1 == Some(Score::Lost((n - 1) as u32)),
{
    let cols = open_columns(b, WIDTH as int);
    lemma_open_columns_playable(b, WIDTH as int);
    lemma_scan_origin(b, p, depth, cols, cols.len() as int);
    let st = scan(b, p, depth, cols, cols.len() as int);
    assert(st.0 is Some && (st.0->0).1 == n);
    let c = (st.0->0).0;
    let j = choose|j: int|
        0 <= j < cols.len() && c == #[trigger] column_at(cols[j]) && score_of(
            dropped(b, cols[j] as int, p),
            cols[j] as int,
            p,
        ) is Undecided && searched(b, cols[j] as int, p, depth) == Score::Won(n);
    assert(depth > 0);
    crate::board::lemma_dropped_keeps_wf(b, cols[j] as int, p);
    lemma_best_facts(dropped(b, cols[j] as int, p), opponent_of(p), depth - 1);
}

proof fn lemma_scan_frozen(b: Field, p: Player, depth: int, cols: Seq<nat>, j: int, k: int)
    requires
        0 <= j <= k <= cols.len(),
        scan(b, p, depth, cols, j).0 is Some,
    ensures
        scan(b, p, depth, cols, k) == scan(b, p, depth, cols, j),
    decreases k - j,
{
    if k > j {
        lemma_scan_frozen(b, p, depth, cols, j, k - 1);
    }
}

/// Immediate outcomes of each move first: a win is taken at once. Moves that
/// stay open are searched `moves_ahead` plies deeper from the opponent's side.
/// Then a forced win goes first, an open move before a draw, a draw before
/// a loss, and among losses the one that comes latest; see `best`.
pub fn find_best_move(g: &mut ConnectFour, p: &Player, moves_ahead: i32) -> (r: (
    Option<Column>,
    Option<Score>,
))
    requires
        old(g).wf(),
    ensures
        final(g).wf(),
        final(g)@ == old(g)@,
        r == best(old(g)@, *p, moves_ahead as int),
        r.1 is None <==> r.0 is None,
        r.0 is Some ==> playable(old(g)@, col_index(r.0->0) as int),
        r.1 == Some(Score::Won(0)) <==> has_immediate_win(old(g)@, *p),
        has_immediate_win(old(g)@, *p) ==> exists|k: int|
            0 <= k < open_columns(old(g)@, WIDTH as int).len() && r.0 == Some(
                #[trigger] column_at(open_columns(old(g)@, WIDTH as int)[k]),
            ) && wins_at(old(g)@, open_columns(old(g)@, WIDTH as int)[k] as int, *p) && forall|
                j: int,
            |
                0 <= j < k ==> !#[trigger] wins_at(
                    old(g)@,
                    open_columns(old(g)@, WIDTH as int)[j] as int,
                    *p,
                ),
        r.1 is Some ==> distance(r.1->0) <= depth_bound(moves_ahead as int),
    decreases moves_ahead,
{
    let ghost b = g@;
    assert(b == old(g)@);
    let ghost cols = open_columns(b, WIDTH as int);
    let ghost depth = moves_ahead as int;
    proof {
        lemma_open_columns_playable(b, WIDTH as int);
        lemma_best_facts(b, *p, depth);
        crate::board::lemma_column_at(Column::Zero);
    }
    let options = g.possible_moves(p);
    if options.len() == 0 {
        return (None, None);
    }
    let mut imm: Vec<Score> = Vec::new();
    let mut win: Option<Column> = None;
    let mut imm_draw: Option<Column> = None;
    let mut i: usize = 0;
    while i < options.len() && win.is_none()
        invariant
            g.wf(),
            g@ == b,
            cols == open_columns(b, WIDTH as int),
            options@.len() == cols.len(),
            forall|k: int| 0 <= k < options@.len() ==> col_index(#[trigger] options@[k].data) == cols[k],
            forall|k: int|
                0 <= k < cols.len() ==> #[trigger] playable(b, cols[k] as int) && cols[k] < WIDTH,
            i <= options@.len(),
            imm@.len() == i,
            forall|k: int|
                0 <= k < i ==> #[trigger] imm@[k] == score_of(
                    dropped(b, cols[k] as int, *p),
                    cols[k] as int,
                    *p,
                ),
            win == first_win(b, *p, cols, i as int),
            win is None ==> imm_draw == last_draw(b, *p, cols, i as int),
        decreases options@.len() - i,
    {
        let mv = options[i];
        assert(col_index(options@[i as int].data) == cols[i as int]);
        let score = g.make_move(p, &mv);
        proof {
            lemma_lift_dropped(b, cols[i as int] as int, *p);
            crate::board::lemma_column_at(mv.data);
        }
        match score {
            Ok(s) => {
                imm.push(s);
                match s {
                    Score::Won(_) => {
                        win = Some(mv.data);
                    },
                    Score::Remis(_) => {
                        imm_draw = Some(mv.data);
                    },
                    _ => {},
                }
            },
            Err(_) => {
                imm.push(Score::Undecided);
            },
        }
        g.withdraw_move(p, &mv);
        i += 1;
    }
    if let Some(c) = win {
        proof {
            lemma_first_win(b, *p, cols, i as int);
            lemma_first_win(b, *p, cols, cols.len() as int);
            if i < cols.len() {
                assert(first_win(b, *p, cols, cols.len() as int) == first_win(b, *p, cols, i as int))
                    by {
                    let j = choose|j: int|
                        0 <= j < i && first_win(b, *p, cols, i as int) == Some(
                            #[trigger] column_at(cols[j]),
                        ) && wins_at(b, cols[j] as int, *p) && forall|q: int|
                            0 <= q < j ==> !#[trigger] wins_at(b, cols[q] as int, *p);
                    let j2 = choose|j2: int|
                        0 <= j2 < cols.len() && first_win(b, *p, cols, cols.len() as int) == Some(
                            #[trigger] column_at(cols[j2]),
                        ) && wins_at(b, cols[j2] as int, *p) && forall|q: int|
                            0 <= q < j2 ==> !#[trigger] wins_at(b, cols[q] as int, *p);
                    assert(j == j2);
                }
            }
        }
        return (Some(c), Some(Score::Won(0)));
    }
    assert(i == cols.len());
    let mut forced: Option<(Column, u32)> = None;
    let mut open: Option<Column> = None;
    let mut draw: Option<(Column, u32)> = None;
    let mut loss: Option<(Column, u32)> = None;
    let mut j: usize = 0;
    while j < options.len() && forced.is_none()
        invariant
            g.wf(),
            g@ == b,
            depth == moves_ahead as int,
            cols == open_columns(b, WIDTH as int),
            options@.len() == cols.len(),
            forall|k: int| 0 <= k < options@.len() ==> col_index(#[trigger] options@[k].data) == cols[k],
            forall|k: int|
                0 <= k < cols.len() ==> #[trigger] playable(b, cols[k] as int) && cols[k] < WIDTH,
            imm@.len() == cols.len(),
            forall|k: int|
                0 <= k < cols.len() ==> #[trigger] imm@[k] == score_of(
                    dropped(b, cols[k] as int, *p),
                    cols[k] as int,
                    *p,
                ),
            j <= options@.len(),
            (forced, open, draw, loss) == scan(b, *p, depth, cols, j as int),
            forced is Some ==> 0 < j,
            forced is Some ==> scan(b, *p, depth, cols, j as int).0 is Some,
        decreases options@.len() - j,
    {
        let mv = options[j];
        assert(col_index(options@[j as int].data) == cols[j as int]);
        proof {
            crate::board::lemma_column_at(mv.data);
        }
        if let Score::Undecided = imm[j] {
            let v = if moves_ahead > 0 {
                let _ = g.make_move(p, &mv);
                proof {
                    crate::board::lemma_dropped_keeps_wf(b, cols[j as int] as int, *p);
                    lemma_best_facts(dropped(b, cols[j as int] as int, *p), opponent_of(*p), depth - 1);
                }
                let (_, adv) = find_best_move(g, &p.opponent(), moves_ahead - 1);
                g.withdraw_move(p, &mv);
                proof {
                    lemma_lift_dropped(b, cols[j as int] as int, *p);
                }
                match adv {
                    Some(Score::Won(n)) => Score::Lost(n + 1),
                    Some(Score::Remis(n)) => Score::Remis(n + 1),
                    Some(Score::Lost(n)) => Score::Won(n + 1),
                    _ => Score::Undecided,
                }
            } else {
                Score::Undecided
            };
            assert(v == searched(b, cols[j as int] as int, *p, depth));
            match v {
                Score::Won(n) => {
                    forced = Some((mv.data, n));
                },
                Score::Undecided => {
                    if open.is_none() {
                        open = Some(mv.data);
                    }
                },
                Score::Remis(n) => {
                    draw = Some((mv.data, n));
                },
                Score::Lost(n) => {
                    let keep = match loss {
                        Some((_, m)) => n <= m,
                        None => false,
                    };
                    if !keep {
                        loss = Some((mv.data, n));
                    }
                },
            }
        }
        j += 1;
    }
    proof {
        if j < cols.len() {
            lemma_scan_frozen(b, *p, depth, cols, j as int, cols.len() as int);
        }
        lemma_first_win(b, *p, cols, cols.len() as int);
    }
    if let Some((c, n)) = forced {
        (Some(c), Some(Score::Won(n)))
    } else if let Some(c) = open {
        (Some(c), Some(Score::Undecided))
    } else if let Some((c, n)) = draw {
        (Some(c), Some(Score::Remis(n)))
    } else if let Some(c) = imm_draw {
        (Some(c), Some(Score::Remis(0)))
    } else if let Some((c, n)) = loss {
        (Some(c), Some(Score::Lost(n)))
    } else {
        (None, None)
    }
}

/// The fallback search with no evaluation of its own: open moves rank equal.
pub struct NaiveStrategy {}

impl NaiveStrategy {
    /// See `find_best_move`.
    pub fn find_best_move(&self, g: &mut ConnectFour, p: &Player, moves_ahead: i32) -> (r: (
        Option<Column>,
        Option<Score>,
    ))
        requires
            old(g).wf(),
        ensures
            final(g).wf(),
            final(g)@ == old(g)@,
            r.1 is None <==> r.0 is None,
            r.0 is Some ==> playable(old(g)@, col_index(r.0->0) as int),
            r.1 == Some(Score::Won(0)) <==> has_immediate_win(old(g)@, *p),
            r == best(old(g)@, *p, moves_ahead as int),
    {
        find_best_move(g, p, moves_ahead)
    }
}

} // verus!
