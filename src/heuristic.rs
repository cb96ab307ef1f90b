//! The counting behind the positional evaluation of a move: the board seen
//! from one player's side, cells that can no longer matter, forced columns,
//! and runs of cells around a target cell.
use vstd::prelude::*;
use crate::board::{
    Column, ConnectFour, ConnectFourMove, Field, Player, Score, HEIGHT, WIDTH, col_index, dropped,
    field_wf, lemma_dropped_keeps_wf, opponent_of, playable,
};
use crate::search::wins_at;

verus! {

/// A cell as seen by the player to evaluate for.
#[derive(PartialEq, Eq, Debug, Clone, Copy, Structural)]
pub enum Cell {
    /// One of the player's own stones.
    M,
    /// An opponent's stone.
    O,
    /// An empty cell.
    N,
    /// A dead cell: no four can run through it any more.
    D,
}

/// Where the first `x` stands in `s`, or the length of `s` if nowhere.
pub open spec fn first_index(s: Seq<Cell>, x: Cell) -> int
    decreases s.len(),
{
    if s.len() == 0 {
        0
    } else {
        let f = first_index(s.drop_last(), x);
        if f < s.len() - 1 {
            f
        } else if s.last() == x {
            s.len() - 1
        } else {
            s.len() as int
        }
    }
}

/// How many cells of `s` equal `x`.
pub open spec fn count_in(s: Seq<Cell>, x: Cell) -> int
    decreases s.len(),
{
    if s.len() == 0 {
        0
    } else {
        count_in(s.drop_last(), x) + if s.last() == x {
            1int
        } else {
            0int
        }
    }
}

/// The cells at (ns[k], ms[k]), pairwise, as far as both lists go.
pub open spec fn visited(ef: Seq<Seq<Cell>>, ns: Seq<usize>, ms: Seq<usize>) -> Seq<Cell> {
    Seq::new(
        (if ns.len() < ms.len() {
            ns.len()
        } else {
            ms.len()
        }),
        |k: int| ef[ns[k] as int][ms[k] as int],
    )
}

/// The counts along a run of cells that stops before the first dead cell:
/// for the player, where the first opponent stone stands and how many own
/// stones and empty cells come before it; for the opponent the same, with
/// the roles swapped.
pub open spec fn run_counts(cs: Seq<Cell>) -> ((int, int, int), (int, int, int)) {
    let fo = first_index(cs, Cell::O);
    let fm = first_index(cs, Cell::M);
    (
        (fo, count_in(cs.subrange(0, fo), Cell::M), count_in(cs.subrange(0, fo), Cell::N)),
        (fm, count_in(cs.subrange(0, fm), Cell::O), count_in(cs.subrange(0, fm), Cell::N)),
    )
}

pub open spec fn grid_view(ef: Vec<Vec<Cell>>) -> Seq<Seq<Cell>> {
    ef@.map_values(|c: Vec<Cell>| c@)
}

pub open spec fn indices_fit(ef: Seq<Seq<Cell>>, ns: Seq<usize>, ms: Seq<usize>) -> bool {
    forall|k: int|
        0 <= k < ns.len() && k < ms.len() ==> (#[trigger] ns[k]) < ef.len() && ms[k] < ef[ns[k] as int].len()
}

proof fn lemma_first_index_bound(s: Seq<Cell>, x: Cell)
    ensures
        0 <= first_index(s, x) <= s.len(),
        first_index(s, x) < s.len() ==> s[first_index(s, x)] == x,
        forall|j: int| 0 <= j < first_index(s, x) ==> s[j] != x,
    decreases s.len(),
{
    if s.len() > 0 {
        lemma_first_index_bound(s.drop_last(), x);
        assert forall|j: int| 0 <= j < first_index(s, x) implies s[j] != x by {
            if j < s.len() - 1 {
                assert(s[j] == s.drop_last()[j]);
            }
        }
    }
}

proof fn lemma_count_bound(s: Seq<Cell>, x: Cell)
    ensures
        0 <= count_in(s, x) <= s.len(),
    decreases s.len(),
{
    if s.len() > 0 {
        lemma_count_bound(s.drop_last(), x);
    }
}

/// Counts own, opponent and empty cells from a target cell outwards along
/// the cells (ns[k], ms[k]), stopping at the first dead cell; see `run_counts`.
pub fn efield_counting(ef: &Vec<Vec<Cell>>, ns: Vec<usize>, ms: Vec<usize>) -> (r: (
    (i32, i32, i32),
    (i32, i32, i32),
))
    requires
        indices_fit(grid_view(*ef), ns@, ms@),
        ns@.len() < 1000,
    ensures
        ({
            let vs = visited(grid_view(*ef), ns@, ms@);
            let cs = vs.subrange(0, first_index(vs, Cell::D));
            let ((a, b, c), (d, e, f)) = run_counts(cs);
            r == ((a as i32, b as i32, c as i32), (d as i32, e as i32, f as i32))
        }),
{
    let ghost vs = visited(grid_view(*ef), ns@, ms@);
    let len = if ns.len() < ms.len() {
        ns.len()
    } else {
        ms.len()
    };
    let mut o_count: i32 = 0;
    let mut no_count: i32 = 0;
    let mut m_count: i32 = 0;
    let mut nm_count: i32 = 0;
    let mut count: i32 = 0;
    let mut first_opponent: Option<i32> = None;
    let mut first_mine: Option<i32> = None;
    let mut k: usize = 0;
    let mut dead = false;
    proof {
        lemma_first_index_bound(vs, Cell::D);
    }
    while k < len && !dead
        invariant
            len == vs.len(),
            vs == visited(grid_view(*ef), ns@, ms@),
            indices_fit(grid_view(*ef), ns@, ms@),
            len < 1000,
            k <= len,
            count == (if dead {
                k - 1
            } else {
                k as int
            }),
            !dead ==> forall|j: int| 0 <= j < k ==> vs[j] != Cell::D,
            dead ==> k > 0 && vs[k - 1] == Cell::D && forall|j: int| 0 <= j < k - 1 ==> vs[j]
                != Cell::D,
            ({
                let cs = if dead {
                    vs.subrange(0, k - 1)
                } else {
                    vs.subrange(0, k as int)
                };
                &&& first_mine == (if first_index(cs, Cell::M) < cs.len() {
                    Some(first_index(cs, Cell::M) as i32)
                } else {
                    None::<i32>
                })
                &&& first_opponent == (if first_index(cs, Cell::O) < cs.len() {
                    Some(first_index(cs, Cell::O) as i32)
                } else {
                    None::<i32>
                })
                &&& m_count == count_in(cs.subrange(0, first_index(cs, Cell::O)), Cell::M)
                &&& nm_count == count_in(cs.subrange(0, first_index(cs, Cell::O)), Cell::N)
                &&& o_count == count_in(cs.subrange(0, first_index(cs, Cell::M)), Cell::O)
                &&& no_count == count_in(cs.subrange(0, first_index(cs, Cell::M)), Cell::N)
            }),
        decreases len - k,
    {
        let ghost cs0 = vs.subrange(0, k as int);
        let ghost cs1 = vs.subrange(0, k + 1);
        assert(cs1.drop_last() =~= cs0);
        proof {
            lemma_first_index_bound(cs0, Cell::M);
            lemma_first_index_bound(cs0, Cell::O);
            lemma_count_bound(cs0, Cell::M);
            lemma_count_bound(cs0, Cell::N);
            lemma_count_bound(cs0, Cell::O);
            lemma_count_bound(cs0.subrange(0, first_index(cs0, Cell::O)), Cell::M);
            lemma_count_bound(cs0.subrange(0, first_index(cs0, Cell::O)), Cell::N);
            lemma_count_bound(cs0.subrange(0, first_index(cs0, Cell::M)), Cell::O);
            lemma_count_bound(cs0.subrange(0, first_index(cs0, Cell::M)), Cell::N);
        }
        let i = ns[k];
        let j = ms[k];
        assert(grid_view(*ef)[i as int] == ef@[i as int]@);
        let cell = ef[i][j];
        assert(cell == vs[k as int]);
        match cell {
            Cell::M => {
                if first_mine.is_none() {
                    first_mine = Some(count);
                }
                if first_opponent.is_none() {
                    m_count += 1;
                }
            },
            Cell::O => {
                if first_opponent.is_none() {
                    first_opponent = Some(count);
                }
                if first_mine.is_none() {
                    o_count += 1;
                }
            },
            Cell::N => {
                if first_mine.is_none() {
                    no_count += 1;
                }
                if first_opponent.is_none() {
                    nm_count += 1;
                }
            },
            Cell::D => {
                dead = true;
            },
        }
        proof {
            if !dead {
                let fo0 = first_index(cs0, Cell::O);
                let fm0 = first_index(cs0, Cell::M);
                let fo1 = first_index(cs1, Cell::O);
                let fm1 = first_index(cs1, Cell::M);
                if fo0 < k {
                    assert(cs1.subrange(0, fo1) =~= cs0.subrange(0, fo0));
                } else {
                    assert(cs1.subrange(0, fo1).drop_last() =~= cs0.subrange(0, fo0) || fo1 == k);
                    if fo1 == k {
                        assert(cs1.subrange(0, fo1) =~= cs0.subrange(0, fo0));
                    } else {
                        assert(cs1.subrange(0, fo1) =~= cs1);
                        assert(cs0.subrange(0, fo0) =~= cs0);
                    }
                }
                if fm0 < k {
                    assert(cs1.subrange(0, fm1) =~= cs0.subrange(0, fm0));
                } else {
                    if fm1 == k {
                        assert(cs1.subrange(0, fm1) =~= cs0.subrange(0, fm0));
                    } else {
                        assert(cs1.subrange(0, fm1) =~= cs1);
                        assert(cs0.subrange(0, fm0) =~= cs0);
                    }
                }
            }
        }
        if !dead {
            count += 1;
        }
        k += 1;
    }
    let ghost cs = if dead {
        vs.subrange(0, k - 1)
    } else {
        vs.subrange(0, k as int)
    };
    proof {
        lemma_first_index_bound(vs, Cell::D);
        if dead {
            assert(first_index(vs, Cell::D) == k - 1) by {
                lemma_first_index_bound(vs, Cell::D);
            }
        } else {
            assert(k == len);
        }
        lemma_first_index_bound(cs, Cell::M);
        lemma_first_index_bound(cs, Cell::O);
    }
    if first_mine.is_none() {
        first_mine = Some(count);
    }
    if first_opponent.is_none() {
        first_opponent = Some(count);
    }
    match (first_mine, first_opponent) {
        (Some(fm), Some(fo)) => ((fo, m_count, nm_count), (fm, o_count, no_count)),
        _ => ((0, 0, 0), (0, 0, 0)),
    }
}


/// A cell of the board as `p` sees it: own stones, the opponent's, empty
/// cells; gray stones, and any stone when `p` is gray, are dead.
pub open spec fn seen_as(x: Option<Player>, p: Player) -> Cell {
    match x {
        None => Cell::N,
        Some(Player::Gray) => Cell::D,
        Some(q) => if p == q {
            Cell::M
        } else if p == Player::Gray {
            Cell::D
        } else {
            Cell::O
        },
    }
}

/// A grid of seven columns of six cells.
pub open spec fn grid_wf(ef: Seq<Seq<Cell>>) -> bool {
    ef.len() == WIDTH && forall|c: int| 0 <= c < WIDTH ==> (#[trigger] ef[c]).len() == HEIGHT
}

fn seen_from(x: Option<Player>, p: Player) -> (r: Cell)
    ensures
        r == seen_as(x, p),
{
    match x {
        None => Cell::N,
        Some(Player::Gray) => Cell::D,
        Some(q) => if p == q {
            Cell::M
        } else if p == Player::Gray {
            Cell::D
        } else {
            Cell::O
        },
    }
}

/// The board as `p` sees it, every cell of the seven by six grid.
pub fn evaluation_field(g: &ConnectFour, p: Player) -> (r: Vec<Vec<Cell>>)
    requires
        g.wf(),
    ensures
        grid_wf(grid_view(r)),
        forall|c: int, k: int|
            0 <= c < WIDTH && 0 <= k < HEIGHT ==> #[trigger] grid_view(r)[c][k] == seen_as(
                crate::board::cell(g@, c, k),
                p,
            ),
{
    let st = g.state();
    let mut ef: Vec<Vec<Cell>> = Vec::with_capacity(WIDTH);
    let mut c: usize = 0;
    while c < WIDTH
        invariant
            c <= WIDTH,
            g.wf(),
            crate::board::field_view(*st) == g@,
            ef@.len() == c,
            forall|i: int| 0 <= i < c ==> (#[trigger] ef@[i])@.len() == HEIGHT,
            forall|i: int, k: int|
                0 <= i < c && 0 <= k < HEIGHT ==> #[trigger] ef@[i]@[k] == seen_as(
                    crate::board::cell(g@, i, k),
                    p,
                ),
        decreases WIDTH - c,
    {
        let col = &st[c];
        assert(col@ == g@[c as int]);
        let mut ecol: Vec<Cell> = Vec::with_capacity(HEIGHT);
        let mut k: usize = 0;
        while k < HEIGHT
            invariant
                k <= HEIGHT,
                c < WIDTH,
                g.wf(),
                col@ == g@[c as int],
                ecol@.len() == k,
                forall|q: int| 0 <= q < k ==> #[trigger] ecol@[q] == seen_as(
                    crate::board::cell(g@, c as int, q),
                    p,
                ),
            decreases HEIGHT - k,
        {
            let x = if k < col.len() {
                col[k]
            } else {
                None
            };
            ecol.push(seen_from(x, p));
            k += 1;
        }
        ef.push(ecol);
        c += 1;
    }
    ef
}


/// Stones of `p` and the opponent dropped in turn into column `c`, `p`
/// first: how many go in up to and including the first that wins, or `None`
/// if the column fills first. `k` stones are in already.
pub open spec fn column_race(b: Field, c: int, p: Player, k: nat) -> Option<nat>
    decreases HEIGHT - b[c].len(),
{
    if !playable(b, c) {
        None
    } else if wins_at(b, c, p) {
        Some(k + 1)
    } else {
        column_race(dropped(b, c, p), c, opponent_of(p), k + 1)
    }
}

/// Drops stones into column `col` in turn, `first` to begin, until one
/// wins or the column is full, then takes them all back; see `column_race`.
pub fn first_win_in_column(g: &mut ConnectFour, col: usize, first: Player) -> (r: Option<u32>)
    requires
        old(g).wf(),
        col < WIDTH,
    ensures
        final(g).wf(),
        final(g)@ == old(g)@,
        r == (match column_race(old(g)@, col as int, first, 0) {
            Some(k) => Some(k as u32),
            None => None::<u32>,
        }),
{
    let ghost b = g@;
    let mv = ConnectFourMove { data: Column::from_usize(col) };
    let mut cp = first;
    let mut i: u32 = 0;
    let mut won: Option<u32> = None;
    let mut stop = false;
    while !stop
        invariant
            g.wf(),
            col < WIDTH,
            col_index(mv.data) == col,
            g@.len() == WIDTH,
            forall|c: int| 0 <= c < WIDTH && c != col ==> #[trigger] g@[c] == b[c],
            g@[col as int].len() == b[col as int].len() + i,
            g@[col as int].subrange(0, b[col as int].len() as int) == b[col as int],
            i <= HEIGHT,
            !stop ==> won is None && column_race(b, col as int, first, 0) == column_race(
                g@,
                col as int,
                cp,
                i as nat,
            ),
            stop ==> won == (match column_race(b, col as int, first, 0) {
                Some(k) => Some(k as u32),
                None => None::<u32>,
            }),
        decreases (HEIGHT - g@[col as int].len()) * 2 + (if stop {
            0int
        } else {
            1int
        }),
    {
        let ghost before = g@;
        match g.make_move(&cp, &mv) {
            Ok(score) => {
                proof {
                    lemma_dropped_keeps_wf(before, col as int, cp);
                }
                i += 1;
                if let Score::Won(_) = score {
                    won = Some(i);
                    stop = true;
                }
                cp = cp.opponent();
                proof {
                    assert(g@[col as int].subrange(0, b[col as int].len() as int) =~= b[col as int]);
                }
            },
            Err(_) => {
                stop = true;
            },
        }
    }
    let mut u: u32 = 0;
    while u < i
        invariant
            g.wf(),
            col < WIDTH,
            col_index(mv.data) == col,
            u <= i,
            g@.len() == WIDTH,
            forall|c: int| 0 <= c < WIDTH && c != col ==> #[trigger] g@[c] == b[c],
            g@[col as int].len() == b[col as int].len() + i - u,
            g@[col as int].subrange(0, b[col as int].len() as int) == b[col as int],
        decreases i - u,
    {
        cp = cp.opponent();
        g.withdraw_move(&cp, &mv);
        proof {
            assert(g@[col as int].subrange(0, b[col as int].len() as int) =~= b[col as int]);
        }
        u += 1;
    }
    proof {
        assert(g@[col as int] =~= b[col as int]);
        assert(g@ =~= b);
    }
    won
}


/// The forced rows of one column for a player: `mine` when, stones
/// alternating from the player on, the opponent is first to connect four,
/// with the number of stones before the winning one; `theirs` the same when
/// the opponent begins and the player connects.
#[derive(PartialEq, Eq, Debug, Clone, Copy, Structural)]
pub struct Tabu {
    pub column: Column,
    pub mine: Option<u32>,
    pub theirs: Option<u32>,
}

/// The stones before the winning one, when the second player of the race wins.
pub open spec fn second_wins(race: Option<nat>) -> Option<u32> {
    match race {
        Some(k) => if k % 2 == 0 {
            Some((k - 1) as u32)
        } else {
            None::<u32>
        },
        None => None::<u32>,
    }
}

fn second_wins_exec(race: Option<u32>) -> (r: Option<u32>)
    requires
        race matches Some(k) ==> 1 <= k,
    ensures
        r == (match race {
            Some(k) => if k % 2 == 0 {
                Some((k - 1) as u32)
            } else {
                None::<u32>
            },
            None => None::<u32>,
        }),
{
    match race {
        Some(k) => if k % 2 == 0 {
            Some(k - 1)
        } else {
            None
        },
        None => None,
    }
}

proof fn lemma_race_positive(b: Field, c: int, p: Player, k: nat)
    requires
        field_wf(b),
        0 <= c < WIDTH,
    ensures
        column_race(b, c, p, k) matches Some(n) ==> k + 1 <= n <= k + HEIGHT - b[c].len(),
    decreases HEIGHT - b[c].len(),
{
    if playable(b, c) && !wins_at(b, c, p) {
        lemma_dropped_keeps_wf(b, c, p);
        lemma_race_positive(dropped(b, c, p), c, opponent_of(p), k + 1);
    }
}

/// The forced rows of every column for `p`.
pub fn tabu_rows(g: &mut ConnectFour, p: Player) -> (r: Vec<Tabu>)
    requires
        old(g).wf(),
    ensures
        final(g).wf(),
        final(g)@ == old(g)@,
        r@.len() == WIDTH,
        forall|c: int|
            0 <= c < WIDTH ==> col_index((#[trigger] r@[c]).column) == c && r@[c].mine
                == second_wins(column_race(old(g)@, c, p, 0)) && r@[c].theirs == second_wins(
                column_race(old(g)@, c, opponent_of(p), 0),
            ),
{
    let ghost b = g@;
    let mut rows: Vec<Tabu> = Vec::with_capacity(WIDTH);
    let mut col: usize = 0;
    while col < WIDTH
        invariant
            g.wf(),
            g@ == b,
            col <= WIDTH,
            rows@.len() == col,
            forall|c: int|
                0 <= c < col ==> col_index((#[trigger] rows@[c]).column) == c && rows@[c].mine
                    == second_wins(column_race(b, c, p, 0)) && rows@[c].theirs == second_wins(
                    column_race(b, c, opponent_of(p), 0),
                ),
        decreases WIDTH - col,
    {
        proof {
            lemma_race_positive(b, col as int, p, 0);
            lemma_race_positive(b, col as int, opponent_of(p), 0);
        }
        let mine = second_wins_exec(first_win_in_column(g, col, p));
        let theirs = second_wins_exec(first_win_in_column(g, col, p.opponent()));
        rows.push(Tabu { column: Column::from_usize(col), mine, theirs });
        col += 1;
    }
    rows
}

/// `p` after `n` turns: the opponent after an odd number, `p` after an even one.
pub open spec fn turned(p: Player, n: nat) -> Player
    decreases n,
{
    if n == 0 {
        p
    } else {
        opponent_of(turned(p, (n - 1) as nat))
    }
}

/// Stones dropped in turn into column `c` of `b`, `cp` first, until the
/// column is full or a stone would win. If the stone that would win would
/// win for the other player too, that player's stone is dropped in its place
/// and the race ends with the height above it: cells from there up can never
/// be reached in play. Otherwise the other player's stone is dropped in its
/// place and the race goes on with `cp` again. The result: that height, if
/// any; the player to move when the race ended; the stones dropped, `i` of
/// them dropped already.
pub open spec fn dead_race(b: Field, c: int, cp: Player, i: nat) -> (Option<int>, Player, nat)
    decreases HEIGHT - b[c].len(),
{
    if !playable(b, c) || b[c].len() >= HEIGHT {
        (None, cp, i)
    } else if wins_at(b, c, cp) {
        let q = opponent_of(cp);
        if wins_at(b, c, q) {
            (Some(b[c].len() + 1int), q, i + 1)
        } else {
            dead_race(dropped(b, c, q), c, cp, i + 1)
        }
    } else {
        dead_race(dropped(b, c, cp), c, opponent_of(cp), i + 1)
    }
}

/// The races of the first `k` columns, white to begin the first; each race
/// begins with the player its predecessor's stones, taken back one by one,
/// leave to move. The dead heights, column by column, and the next player.
pub open spec fn dead_scan(b: Field, k: int) -> (Seq<Option<int>>, Player)
    decreases (if k > 0 {
        k
    } else {
        0
    }),
{
    if k <= 0 {
        (Seq::empty(), Player::White)
    } else {
        let prev = dead_scan(b, k - 1);
        let r = dead_race(b, k - 1, prev.1, 0);
        (prev.0.push(r.0), turned(r.1, r.2))
    }
}

/// The evaluation grid `e` with the cells of each column from its dead
/// height up marked dead.
pub open spec fn deadened(e: Seq<Seq<Cell>>, dead: Seq<Option<int>>, c: int, k: int) -> Cell {
    if 0 <= c < dead.len() && dead[c] is Some && k >= dead[c]->0 {
        Cell::D
    } else {
        e[c][k]
    }
}

proof fn lemma_dead_scan_len(b: Field, k: int)
    requires
        0 <= k,
    ensures
        dead_scan(b, k).0.len() == k,
    decreases k,
{
    if k > 0 {
        lemma_dead_scan_len(b, k - 1);
    }
}

/// Marks dead, in each column, the cells from the height where a race of
/// stones in that column would let both players connect four with the same
/// stone; see `dead_race` and `dead_scan`. The board is left as it was.
pub fn fill_in_dead_cells(g: &mut ConnectFour, efield: Vec<Vec<Cell>>) -> (r: Vec<Vec<Cell>>)
    requires
        old(g).wf(),
        grid_wf(grid_view(efield)),
    ensures
        final(g).wf(),
        final(g)@ == old(g)@,
        grid_wf(grid_view(r)),
        forall|c: int, k: int|
            0 <= c < WIDTH && 0 <= k < HEIGHT ==> #[trigger] grid_view(r)[c][k] == deadened(
                grid_view(efield),
                dead_scan(old(g)@, WIDTH as int).0,
                c,
                k,
            ),
{
    let ghost b = g@;
    let ghost e0 = grid_view(efield);
    let mut ef = efield;
    let mut cp = Player::White;
    let mut col: usize = 0;
    while col < WIDTH
        invariant
            g.wf(),
            g@ == b,
            col <= WIDTH,
            grid_wf(grid_view(ef)),
            cp == dead_scan(b, col as int).1,
            forall|c: int, k: int|
                0 <= c < WIDTH && 0 <= k < HEIGHT ==> #[trigger] grid_view(ef)[c][k] == (if c
                    < col {
                    deadened(e0, dead_scan(b, col as int).0, c, k)
                } else {
                    e0[c][k]
                }),
        decreases WIDTH - col,
    {
        proof {
            lemma_dead_scan_len(b, col as int);
        }
        let ghost cp0 = cp;
        let ghost ef0 = grid_view(ef);
        let mv = ConnectFourMove { data: Column::from_usize(col) };
        let mut i: usize = 0;
        let mut stop = false;
        let ghost mut dead: Option<int> = None;
        while !stop
            invariant
                g.wf(),
                col < WIDTH,
                col_index(mv.data) == col,
                g@.len() == WIDTH,
                forall|c: int| 0 <= c < WIDTH && c != col ==> #[trigger] g@[c] == b[c],
                g@[col as int].len() == b[col as int].len() + i,
                g@[col as int].subrange(0, b[col as int].len() as int) == b[col as int],
                i <= HEIGHT,
                grid_wf(grid_view(ef)),
                !stop ==> dead_race(b, col as int, cp0, 0) == dead_race(
                    g@,
                    col as int,
                    cp,
                    i as nat,
                ),
                !stop ==> dead is None,
                stop ==> dead_race(b, col as int, cp0, 0) == (dead, cp, i as nat),
                forall|c: int, k: int|
                    0 <= c < WIDTH && 0 <= k < HEIGHT ==> #[trigger] grid_view(ef)[c][k] == (if c
                        == col && dead is Some && k >= dead->0 {
                        Cell::D
                    } else {
                        ef0[c][k]
                    }),
            decreases (HEIGHT - g@[col as int].len()) * 2 + (if stop {
                0int
            } else {
                1int
            }),
        {
            let ghost before = g@;
            match g.make_move(&cp, &mv) {
                Ok(score) => {
                    i += 1;
                    proof {
                        assert(g@[col as int].subrange(0, b[col as int].len() as int) =~= b[col as int]);
                        lemma_dropped_keeps_wf(before, col as int, cp);
                    }
                    if let Score::Won(_) = score {
                        g.withdraw_move(&cp, &mv);
                        proof {
                            crate::search::lemma_lift_dropped(before, col as int, cp);
                        }
                        cp = cp.opponent();
                        let second = g.make_move(&cp, &mv);
                        proof {
                            lemma_dropped_keeps_wf(before, col as int, cp);
                        }
                        if let Ok(Score::Won(_)) = second {
                            let top = g.state()[col].len();
                            proof {
                                dead = Some(top as int);
                            }
                            let mut j: usize = top;
                            while j < HEIGHT
                                invariant
                                    col < WIDTH,
                                    top <= j <= HEIGHT,
                                    dead == Some(top as int),
                                    grid_wf(grid_view(ef)),
                                    forall|c: int, k: int|
                                        0 <= c < WIDTH && 0 <= k < HEIGHT ==> #[trigger] grid_view(
                                            ef,
                                        )[c][k] == (if c == col && top <= k < j {
                                            Cell::D
                                        } else {
                                            ef0[c][k]
                                        }),
                                decreases HEIGHT - j,
                            {
                                let ghost gv = grid_view(ef);
                                assert(gv[col as int] == ef@[col as int]@);
                                ef[col][j] = Cell::D;
                                proof {
                                    assert(grid_view(ef)[col as int] == gv[col as int].update(
                                        j as int,
                                        Cell::D,
                                    ));
                                    assert forall|c: int, k: int|
                                        0 <= c < WIDTH && 0 <= k < HEIGHT implies #[trigger] grid_view(
                                        ef,
                                    )[c][k] == (if c == col && top <= k < j + 1 {
                                        Cell::D
                                    } else {
                                        ef0[c][k]
                                    }) by {
                                        if c != col {
                                            assert(grid_view(ef)[c] == gv[c]);
                                        }
                                    }
                                    assert forall|c: int| 0 <= c < WIDTH implies (
                                    #[trigger] grid_view(ef)[c]).len() == HEIGHT by {
                                        if c != col {
                                            assert(grid_view(ef)[c] == gv[c]);
                                        }
                                    }
                                }
                                j += 1;
                            }
                            stop = true;
                        }
                        proof {
                            assert(g@[col as int].subrange(0, b[col as int].len() as int) =~= b[col as int]);
                        }
                    }
                    if !stop {
                        cp = cp.opponent();
                    }
                },
                Err(_) => {
                    stop = true;
                },
            }
        }
        let ghost race = dead_race(b, col as int, cp0, 0);
        let mut u: usize = 0;
        while u < i
            invariant
                g.wf(),
                col < WIDTH,
                col_index(mv.data) == col,
                u <= i,
                g@.len() == WIDTH,
                forall|c: int| 0 <= c < WIDTH && c != col ==> #[trigger] g@[c] == b[c],
                g@[col as int].len() == b[col as int].len() + i - u,
                g@[col as int].subrange(0, b[col as int].len() as int) == b[col as int],
                race.2 == i,
                cp == turned(race.1, u as nat),
            decreases i - u,
        {
            cp = cp.opponent();
            g.withdraw_move(&cp, &mv);
            proof {
                assert(g@[col as int].subrange(0, b[col as int].len() as int) =~= b[col as int]);
            }
            u += 1;
        }
        proof {
            assert(g@[col as int] =~= b[col as int]);
            assert(g@ =~= b);
            lemma_dead_scan_len(b, col + 1);
            let ds = dead_scan(b, col + 1).0;
            assert(ds == dead_scan(b, col as int).0.push(dead));
            assert forall|c: int, k: int|
                0 <= c < WIDTH && 0 <= k < HEIGHT implies #[trigger] grid_view(ef)[c][k] == (if c
                < col + 1 {
                deadened(e0, ds, c, k)
            } else {
                e0[c][k]
            }) by {
                if c < col {
                    assert(ds[c] == dead_scan(b, col as int).0[c]);
                } else if c == col {
                    assert(ds[c] == dead);
                }
            }
        }
        col += 1;
    }
    ef
}

/// The counts `efield_counting` returns.
pub open spec fn counted(ef: Seq<Seq<Cell>>, ns: Seq<usize>, ms: Seq<usize>) -> (
    (i32, i32, i32),
    (i32, i32, i32),
) {
    let vs = visited(ef, ns, ms);
    let ((a, b, c), (d, e, f)) = run_counts(vs.subrange(0, first_index(vs, Cell::D)));
    ((a as i32, b as i32, c as i32), (d as i32, e as i32, f as i32))
}

/// Up to three indices below `x`, nearest first.
pub open spec fn below(x: usize) -> Seq<usize> {
    let lo: int = if x < 3 {
        0
    } else {
        x - 3
    };
    Seq::new((x - lo) as nat, |k: int| (x - 1 - k) as usize)
}

/// Up to three indices above `x` and below `hi`, nearest first.
pub open spec fn above(x: usize, hi: usize) -> Seq<usize> {
    let top: int = if x + 4 < hi {
        x + 4
    } else {
        hi as int
    };
    let start: int = if x + 1 < hi {
        x + 1
    } else {
        hi as int
    };
    Seq::new((top - start) as nat, |k: int| (start + k) as usize)
}

fn below_indices(x: usize) -> (r: Vec<usize>)
    ensures
        r@ == below(x),
{
    let lo: usize = if x < 3 {
        0
    } else {
        x - 3
    };
    let mut r: Vec<usize> = Vec::new();
    let mut i: usize = x;
    while i > lo
        invariant
            lo <= i <= x,
            lo == (if x < 3 {
                0
            } else {
                x - 3
            }),
            r@ == Seq::new((x - i) as nat, |k: int| (x - 1 - k) as usize),
        decreases i,
    {
        i -= 1;
        r.push(i);
        assert(r@ =~= Seq::new((x - i) as nat, |k: int| (x - 1 - k) as usize));
    }
    assert(r@ =~= below(x));
    r
}

fn above_indices(x: usize, hi: usize) -> (r: Vec<usize>)
    requires
        x < hi <= 8,
    ensures
        r@ == above(x, hi),
{
    let top: usize = if x + 4 < hi {
        x + 4
    } else {
        hi
    };
    let start: usize = if x + 1 < hi {
        x + 1
    } else {
        hi
    };
    let mut r: Vec<usize> = Vec::new();
    let mut i: usize = start;
    while i < top
        invariant
            start <= i <= top,
            r@ == Seq::new((i - start) as nat, |k: int| (start + k) as usize),
        decreases top - i,
    {
        r.push(i);
        i += 1;
        assert(r@ =~= Seq::new((i - start) as nat, |k: int| (start + k) as usize));
    }
    assert(r@ =~= above(x, hi));
    r
}

proof fn lemma_below(x: usize)
    ensures
        below(x).len() <= 3,
        forall|k: int| 0 <= k < below(x).len() ==> #[trigger] below(x)[k] < x,
{
}

proof fn lemma_above(x: usize, hi: usize)
    ensures
        above(x, hi).len() <= 3,
        forall|k: int| 0 <= k < above(x, hi).len() ==> #[trigger] above(x, hi)[k] < hi,
{
}

proof fn lemma_fit(g: Seq<Seq<Cell>>, ns: Seq<usize>, ms: Seq<usize>)
    requires
        grid_wf(g),
        forall|k: int| 0 <= k < ns.len() ==> #[trigger] ns[k] < WIDTH,
        forall|k: int| 0 <= k < ms.len() ==> #[trigger] ms[k] < HEIGHT,
    ensures
        indices_fit(g, ns, ms),
{
    assert forall|k: int| 0 <= k < ns.len() && k < ms.len() implies (#[trigger] ns[k]) < g.len()
        && ms[k] < g[ns[k] as int].len() by {
        assert(ms[k] < HEIGHT);
    }
}

/// The counts on both sides of cell (n, m) along each line through it:
/// horizontal, rising diagonal, falling diagonal, vertical; for each, the
/// side towards lower columns (or rows) first.
pub fn positional_counts(n: usize, m: usize, ef: &Vec<Vec<Cell>>) -> (r: Vec<
    ((i32, i32, i32), (i32, i32, i32)),
>)
    requires
        grid_wf(grid_view(*ef)),
        n < WIDTH,
        m < HEIGHT,
    ensures
        ({
            let g = grid_view(*ef);
            let same_row = seq![m, m, m];
            let same_col = seq![n, n, n];
            r@ == seq![
                counted(g, below(n), same_row),
                counted(g, above(n, WIDTH), same_row),
                counted(g, below(n), below(m)),
                counted(g, above(n, WIDTH), above(m, HEIGHT)),
                counted(g, below(n), above(m, HEIGHT)),
                counted(g, above(n, WIDTH), below(m)),
                counted(g, same_col, below(m)),
                counted(g, same_col, above(m, HEIGHT)),
            ]
        }),
{
    let ghost g = grid_view(*ef);
    proof {
        lemma_below(n);
        lemma_below(m);
        lemma_above(n, WIDTH);
        lemma_above(m, HEIGHT);
        lemma_fit(g, below(n), seq![m, m, m]);
        lemma_fit(g, above(n, WIDTH), seq![m, m, m]);
        lemma_fit(g, below(n), below(m));
        lemma_fit(g, above(n, WIDTH), above(m, HEIGHT));
        lemma_fit(g, below(n), above(m, HEIGHT));
        lemma_fit(g, above(n, WIDTH), below(m));
        lemma_fit(g, seq![n, n, n], below(m));
        lemma_fit(g, seq![n, n, n], above(m, HEIGHT));
    }
    let mut r: Vec<((i32, i32, i32), (i32, i32, i32))> = Vec::new();
    r.push(efield_counting(ef, below_indices(n), vec![m, m, m]));
    r.push(efield_counting(ef, above_indices(n, WIDTH), vec![m, m, m]));
    r.push(efield_counting(ef, below_indices(n), below_indices(m)));
    r.push(efield_counting(ef, above_indices(n, WIDTH), above_indices(m, HEIGHT)));
    r.push(efield_counting(ef, below_indices(n), above_indices(m, HEIGHT)));
    r.push(efield_counting(ef, above_indices(n, WIDTH), below_indices(m)));
    r.push(efield_counting(ef, vec![n, n, n], below_indices(m)));
    r.push(efield_counting(ef, vec![n, n, n], above_indices(m, HEIGHT)));
    assert(r@ =~= seq![
        counted(g, below(n), seq![m, m, m]),
        counted(g, above(n, WIDTH), seq![m, m, m]),
        counted(g, below(n), below(m)),
        counted(g, above(n, WIDTH), above(m, HEIGHT)),
        counted(g, below(n), above(m, HEIGHT)),
        counted(g, above(n, WIDTH), below(m)),
        counted(g, seq![n, n, n], below(m)),
        counted(g, seq![n, n, n], above(m, HEIGHT)),
    ]);
    r
}

} // verus!
