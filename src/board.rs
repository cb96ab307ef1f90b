//! The Connect Four board: seven columns that fill bottom-up, six cells high.
use vstd::prelude::*;
use vstd::string::{StringExecFns, StringSliceAdditionalSpecFns};

verus! {

/// Number of columns.
pub const WIDTH: usize = 7;

/// Number of cells in a column.
pub const HEIGHT: usize = 6;

/// A stone's owner. `Gray` marks a neutral stone that belongs to nobody.
#[derive(PartialEq, Eq, Debug, Clone, Copy, Structural)]
pub enum Player {
    Black,
    White,
    Gray,
}

pub open spec fn opponent_of(p: Player) -> Player {
    match p {
        Player::Black => Player::White,
        Player::White => Player::Black,
        Player::Gray => Player::Gray,
    }
}

impl Player {
    pub fn opponent(&self) -> (r: Player)
        ensures
            r == opponent_of(*self),
    {
        match self {
            Player::Black => Player::White,
            Player::White => Player::Black,
            Player::Gray => Player::Gray,
        }
    }
}

/// A column of the board; `Zero` stands for "no column".
#[derive(PartialEq, Eq, Debug, Clone, Copy, Structural)]
pub enum Column {
    One,
    Two,
    Three,
    Four,
    Five,
    Six,
    Seven,
    Zero,
}

/// The index of a column, counted from zero; `Zero` maps to an index off the board.
pub open spec fn col_index(c: Column) -> nat {
    match c {
        Column::One => 0,
        Column::Two => 1,
        Column::Three => 2,
        Column::Four => 3,
        Column::Five => 4,
        Column::Six => 5,
        Column::Seven => 6,
        Column::Zero => 0x99,
    }
}

/// The column with index `i`.
pub open spec fn column_at(i: nat) -> Column {
    if i == 0 {
        Column::One
    } else if i == 1 {
        Column::Two
    } else if i == 2 {
        Column::Three
    } else if i == 3 {
        Column::Four
    } else if i == 4 {
        Column::Five
    } else if i == 5 {
        Column::Six
    } else if i == 6 {
        Column::Seven
    } else {
        Column::Zero
    }
}

pub proof fn lemma_column_at(c: Column)
    ensures
        c != Column::Zero ==> column_at(col_index(c)) == c,
        forall|i: nat| i < WIDTH ==> #[trigger] col_index(column_at(i)) == i,
{
}

impl Column {
    pub fn to_usize(&self) -> (r: usize)
        ensures
            r == col_index(*self),
    {
        match self {
            Column::One => 0x0,
            Column::Two => 0x1,
            Column::Three => 0x2,
            Column::Four => 0x3,
            Column::Five => 0x4,
            Column::Six => 0x5,
            Column::Seven => 0x6,
            Column::Zero => 0x99,
        }
    }

    pub fn from_usize(i: usize) -> (r: Column)
        ensures
            i < WIDTH ==> col_index(r) == i,
            i >= WIDTH ==> r == Column::Zero,
    {
        match i {
            0x0 => Column::One,
            0x1 => Column::Two,
            0x2 => Column::Three,
            0x3 => Column::Four,
            0x4 => Column::Five,
            0x5 => Column::Six,
            0x6 => Column::Seven,
            _ => Column::Zero,
        }
    }
}

/// What a move was: the column a stone was dropped into.
pub trait Move<T> {
    fn data(&self) -> &T;
}

#[derive(PartialEq, Eq, Debug, Clone, Copy, Structural)]
pub struct ConnectFourMove {
    pub data: Column,
}

impl Move<Column> for ConnectFourMove {
    fn data(&self) -> &Column {
        &self.data
    }
}

/// The outcome of a position for the player it is reported to, with the
/// number of plies to that outcome under best play.
#[derive(PartialEq, Eq, Debug, Clone, Copy, Structural)]
pub enum Score {
    Undecided,
    Remis(u32),
    Won(u32),
    Lost(u32),
}

/// A move was refused: its column is full or off the board.
#[derive(PartialEq, Eq, Debug, Clone, Copy, Structural)]
pub enum Withdraw {
    NotAllowed,
}

/// The cells of a board, column by column, bottom first.
pub type Field = Seq<Seq<Option<Player>>>;

pub open spec fn field_view(f: Vec<Vec<Option<Player>>>) -> Field {
    f@.map_values(|c: Vec<Option<Player>>| c@)
}

/// A board of the right shape: seven columns, none over six stones, no gaps.
pub open spec fn field_wf(b: Field) -> bool {
    &&& b.len() == WIDTH
    &&& forall|c: int|
        0 <= c < WIDTH ==> #[trigger] b[c].len() <= HEIGHT && forall|r: int|
            0 <= r < b[c].len() ==> #[trigger] b[c][r] is Some
}

/// The stone at column `c`, row `r`, or `None` off the board or above the top stone.
pub open spec fn cell(b: Field, c: int, r: int) -> Option<Player> {
    if 0 <= c < b.len() && 0 <= r < b[c].len() {
        b[c][r]
    } else {
        None
    }
}

/// How many stones of `p` follow (c, r) in direction (dc, dr), without a
/// gap, counting at most `k`.
pub open spec fn run(b: Field, c: int, r: int, dc: int, dr: int, p: Player, k: nat) -> nat
    decreases k,
{
    if k == 0 {
        0
    } else if cell(b, c + dc, r + dr) == Some(p) {
        1 + run(b, c + dc, r + dr, dc, dr, p, (k - 1) as nat)
    } else {
        0
    }
}

/// The stone of `p` at (c, r) is one of four of `p` in a line: downwards,
/// horizontally or on either diagonal.
pub open spec fn connects_four(b: Field, c: int, r: int, p: Player) -> bool {
    ||| run(b, c, r, 0, -1, p, 3) >= 3
    ||| run(b, c, r, -1, 0, p, 3) + run(b, c, r, 1, 0, p, 3) >= 3
    ||| run(b, c, r, -1, 1, p, 3) + run(b, c, r, 1, -1, p, 3) >= 3
    ||| run(b, c, r, -1, -1, p, 3) + run(b, c, r, 1, 1, p, 3) >= 3
}

/// No column has room for another stone.
pub open spec fn is_full(b: Field) -> bool {
    forall|c: int| 0 <= c < b.len() ==> #[trigger] b[c].len() >= HEIGHT
}

/// The board after `p` drops a stone into column `c`.
pub open spec fn dropped(b: Field, c: int, p: Player) -> Field {
    b.update(c, b[c].push(Some(p)))
}

/// The board after the top stone of column `c` is taken away.
pub open spec fn lifted(b: Field, c: int) -> Field {
    if 0 <= c < b.len() && b[c].len() > 0 {
        b.update(c, b[c].drop_last())
    } else {
        b
    }
}

/// The score of a board for `p`, who has just dropped the top stone of column `c`.
pub open spec fn score_of(b: Field, c: int, p: Player) -> Score {
    if connects_four(b, c, b[c].len() - 1, p) {
        Score::Won(0)
    } else if is_full(b) {
        Score::Remis(0)
    } else {
        Score::Undecided
    }
}

/// Dropping a stone into a playable column keeps the board well formed.
pub proof fn lemma_dropped_keeps_wf(b: Field, c: int, p: Player)
    requires
        field_wf(b),
        playable(b, c),
    ensures
        field_wf(dropped(b, c, p)),
        dropped(b, c, p)[c].len() == b[c].len() + 1,
{
    let n = dropped(b, c, p);
    assert forall|i: int| 0 <= i < WIDTH implies #[trigger] n[i].len() <= HEIGHT && forall|r: int|
        0 <= r < n[i].len() ==> #[trigger] n[i][r] is Some by {
        if i == c {
            assert forall|r: int| 0 <= r < n[i].len() implies #[trigger] n[i][r] is Some by {
                if r < b[c].len() {
                    assert(n[i][r] == b[c][r]);
                }
            }
        }
    }
}

/// A stone may go into column `c`.
pub open spec fn playable(b: Field, c: int) -> bool {
    0 <= c < b.len() && b[c].len() < HEIGHT
}

/// The playable columns among the first `k`, in increasing order.
pub open spec fn open_columns(b: Field, k: int) -> Seq<nat>
    decreases k,
{
    if k <= 0 {
        Seq::empty()
    } else if playable(b, k - 1) {
        open_columns(b, k - 1).push((k - 1) as nat)
    } else {
        open_columns(b, k - 1)
    }
}


pub open spec fn stone_char(x: Option<Player>) -> Seq<char> {
    match x {
        Some(Player::White) => seq!['o'],
        Some(Player::Black) => seq!['x'],
        Some(Player::Gray) => seq!['n'],
        None => Seq::empty(),
    }
}

/// The stones of a column as characters, bottom first.
pub open spec fn column_text(c: Seq<Option<Player>>) -> Seq<char>
    decreases c.len(),
{
    if c.len() == 0 {
        Seq::empty()
    } else {
        column_text(c.drop_last()) + stone_char(c.last())
    }
}

/// The first `k` columns, each on a line of its own.
pub open spec fn columns_text(b: Field, k: int) -> Seq<char>
    decreases k,
{
    if k <= 0 {
        Seq::empty()
    } else {
        columns_text(b, k - 1) + column_text(b[k - 1]) + seq!['\n']
    }
}

pub open spec fn display_text(b: Field) -> Seq<char> {
    "------\n"@ + columns_text(b, b.len() as int) + "------"@
}


/// The lines of a text, split at each '\n'.
pub open spec fn lines_of(s: Seq<u8>) -> Seq<Seq<u8>>
    decreases s.len(),
{
    if s.len() == 0 {
        seq![Seq::empty()]
    } else {
        let ls = lines_of(s.drop_last());
        if s.last() == 10 {
            ls.push(Seq::empty())
        } else {
            ls.update(ls.len() - 1, ls.last().push(s.last()))
        }
    }
}

/// The stone a plan character stands for: 'x' black, 'o' white, 'n' gray.
pub open spec fn stone_of(b: u8) -> Option<Player> {
    if b == 120 {
        Some(Player::Black)
    } else if b == 111 {
        Some(Player::White)
    } else if b == 110 {
        Some(Player::Gray)
    } else {
        None
    }
}

/// A line of six dashes.
pub open spec fn rule_line() -> Seq<u8> {
    seq![45u8, 45u8, 45u8, 45u8, 45u8, 45u8]
}

/// A plan: the lines after the first are the columns, bottom-up, at most six
/// stones each; every other line is a line of six dashes.
pub open spec fn plan_valid(ls: Seq<Seq<u8>>) -> bool {
    forall|i: int|
        0 <= i < ls.len() ==> if 1 <= i <= WIDTH {
            (#[trigger] ls[i]).len() <= HEIGHT && forall|j: int|
                0 <= j < ls[i].len() ==> (#[trigger] stone_of(ls[i][j])) is Some
        } else {
            ls[i] == rule_line()
        }
}

/// The board a plan describes.
pub open spec fn plan_field(ls: Seq<Seq<u8>>) -> Field {
    Seq::new(
        WIDTH as nat,
        |c: int|
            if c + 1 < ls.len() {
                ls[c + 1].map_values(|b: u8| stone_of(b))
            } else {
                Seq::empty()
            },
    )
}

pub open spec fn lines_view(v: Vec<Vec<u8>>) -> Seq<Seq<u8>> {
    v@.map_values(|l: Vec<u8>| l@)
}

/// Splits a text at each '\n'.
fn split_lines(bs: &[u8]) -> (r: Vec<Vec<u8>>)
    ensures
        lines_view(r) == lines_of(bs@),
{
    let mut out: Vec<Vec<u8>> = Vec::new();
    let mut cur: Vec<u8> = Vec::new();
    let mut k: usize = 0;
    assert(bs@.subrange(0, 0) =~= Seq::<u8>::empty());
    assert(lines_view(out).push(cur@) =~= lines_of(Seq::<u8>::empty()));
    while k < bs.len()
        invariant
            k <= bs@.len(),
            lines_view(out).push(cur@) == lines_of(bs@.subrange(0, k as int)),
        decreases bs@.len() - k,
    {
        let b = bs[k];
        let ghost before = lines_view(out).push(cur@);
        assert(bs@.subrange(0, k + 1).drop_last() =~= bs@.subrange(0, k as int));
        if b == 10 {
            out.push(cur);
            cur = Vec::new();
            assert(lines_view(out).push(cur@) =~= before.push(Seq::empty()));
        } else {
            let ghost old_out = lines_view(out);
            cur.push(b);
            assert(lines_view(out).push(cur@) =~= before.update(
                before.len() - 1,
                before.last().push(b),
            ));
        }
        k += 1;
    }
    assert(bs@.subrange(0, bs@.len() as int) =~= bs@);
    let ghost lv = lines_view(out);
    out.push(cur);
    assert(lines_view(out) =~= lv.push(cur@));
    out
}

fn stone_from(b: u8) -> (r: Option<Player>)
    ensures
        r == stone_of(b),
{
    if b == 120 {
        Some(Player::Black)
    } else if b == 111 {
        Some(Player::White)
    } else if b == 110 {
        Some(Player::Gray)
    } else {
        None
    }
}

pub struct ConnectFour {
    field: Vec<Vec<Option<Player>>>,
}

impl View for ConnectFour {
    type V = Field;

    closed spec fn view(&self) -> Field {
        field_view(self.field)
    }
}

impl ConnectFour {
    pub open spec fn wf(&self) -> bool {
        field_wf(self@)
    }

    pub fn width() -> (r: usize)
        ensures
            r == WIDTH,
    {
        WIDTH
    }

    pub fn height() -> (r: usize)
        ensures
            r == HEIGHT,
    {
        HEIGHT
    }

    /// The empty board.
    pub fn new() -> (r: ConnectFour)
        ensures
            r.wf(),
            r@ == Seq::new(WIDTH as nat, |i: int| Seq::<Option<Player>>::empty()),
    {
        let mut field: Vec<Vec<Option<Player>>> = Vec::with_capacity(WIDTH);
        let mut i: usize = 0;
        while i < WIDTH
            invariant
                i <= WIDTH,
                field@.len() == i,
                forall|j: int| 0 <= j < i ==> (#[trigger] field@[j])@.len() == 0,
            decreases WIDTH - i,
        {
            let col: Vec<Option<Player>> = Vec::with_capacity(HEIGHT);
            field.push(col);
            i += 1;
        }
        let r = ConnectFour { field };
        assert(r@ =~~= Seq::new(WIDTH as nat, |i: int| Seq::<Option<Player>>::empty()));
        r
    }

    /// A copy of the board, cell for cell.
    pub fn clone(&self) -> (r: ConnectFour)
        ensures
            r@ == self@,
    {
        let mut field: Vec<Vec<Option<Player>>> = Vec::with_capacity(WIDTH);
        let mut i: usize = 0;
        while i < self.field.len()
            invariant
                i <= self.field@.len(),
                field@.len() == i,
                forall|j: int| 0 <= j < i ==> (#[trigger] field@[j])@ == self.field@[j]@,
            decreases self.field@.len() - i,
        {
            let src = &self.field[i];
            let mut col: Vec<Option<Player>> = Vec::with_capacity(HEIGHT);
            let mut k: usize = 0;
            while k < src.len()
                invariant
                    k <= src@.len(),
                    col@ == src@.subrange(0, k as int),
                decreases src@.len() - k,
            {
                col.push(src[k]);
                k += 1;
            }
            assert(col@ =~= src@);
            field.push(col);
            i += 1;
        }
        let r = ConnectFour { field };
        assert(r@ =~= self@);
        r
    }

    /// The cells, column by column.
    pub fn state(&self) -> (r: &Vec<Vec<Option<Player>>>)
        ensures
            field_view(*r) == self@,
    {
        &self.field
    }

    /// Whether the stone at (c, r) belongs to `p`.
    fn holds(&self, c: i64, r: i64, p: Player) -> (res: bool)
        requires
            self.wf(),
        ensures
            res == (cell(self@, c as int, r as int) == Some(p)),
    {
        if c < 0 || c >= WIDTH as i64 || r < 0 || r >= HEIGHT as i64 {
            return false;
        }
        let cu = c as usize;
        let ru = r as usize;
        let col = &self.field[cu];
        assert(col@ == self@[c as int]);
        if ru >= col.len() {
            false
        } else {
            let x = col[ru];
            assert(x == cell(self@, c as int, r as int));
            match x {
                Some(q) => q == p,
                None => false,
            }
        }
    }

    /// How many stones of `p` follow (n, m) in direction (dc, dr), at most three.
    fn matching_distance(&self, n: usize, m: usize, dc: i64, dr: i64, p: Player) -> (r: usize)
        requires
            self.wf(),
            n < WIDTH,
            m < HEIGHT,
            -1 <= dc <= 1,
            -1 <= dr <= 1,
        ensures
            r == run(self@, n as int, m as int, dc as int, dr as int, p, 3),
            r <= 3,
    {
        let mut count: usize = 0;
        let mut c: i64 = n as i64;
        let mut r: i64 = m as i64;
        while count < 3
            invariant
                count <= 3,
                self.wf(),
                -1 <= dc <= 1,
                -1 <= dr <= 1,
                -10 <= c <= 10,
                -10 <= r <= 10,
                c == n + count * dc,
                r == m + count * dr,
                run(self@, n as int, m as int, dc as int, dr as int, p, 3) == count + run(
                    self@,
                    c as int,
                    r as int,
                    dc as int,
                    dr as int,
                    p,
                    (3 - count) as nat,
                ),
            decreases 3 - count,
        {
            if self.holds(c + dc, r + dr, p) {
                count += 1;
                c = c + dc;
                r = r + dr;
                assert(c == n + count * dc) by (nonlinear_arith)
                    requires
                        c == n + (count - 1) * dc + dc,
                ;
                assert(r == m + count * dr) by (nonlinear_arith)
                    requires
                        r == m + (count - 1) * dr + dr,
                ;
            } else {
                return count;
            }
        }
        count
    }

    /// Whether any column has room for another stone.
    fn move_possible(&self) -> (r: bool)
        requires
            self.wf(),
        ensures
            r == !is_full(self@),
    {
        let mut i: usize = 0;
        while i < WIDTH
            invariant
                self.wf(),
                i <= WIDTH,
                forall|c: int| 0 <= c < i ==> #[trigger] self@[c].len() >= HEIGHT,
            decreases WIDTH - i,
        {
            assert(self.field@[i as int]@ == self@[i as int]);
            if self.field[i].len() < HEIGHT {
                return true;
            }
            i += 1;
        }
        false
    }

    /// The score for `p`, whose stone is the top one of column `n`, at row `m`.
    fn get_score(&self, p: Player, n: usize, m: usize) -> (r: Score)
        requires
            self.wf(),
            n < WIDTH,
            m + 1 == self@[n as int].len(),
        ensures
            r == score_of(self@, n as int, p),
    {
        if self.matching_distance(n, m, 0, -1, p) >= 3 {
            return Score::Won(0);
        }
        if self.matching_distance(n, m, -1, 0, p) + self.matching_distance(n, m, 1, 0, p) >= 3 {
            return Score::Won(0);
        }
        if self.matching_distance(n, m, -1, 1, p) + self.matching_distance(n, m, 1, -1, p) >= 3 {
            return Score::Won(0);
        }
        if self.matching_distance(n, m, -1, -1, p) + self.matching_distance(n, m, 1, 1, p) >= 3 {
            return Score::Won(0);
        }
        if !self.move_possible() {
            return Score::Remis(0);
        }
        Score::Undecided
    }

    /// Drops a stone of `p` into the column of `mv` and scores the result for `p`.
    /// A full column, or one off the board, refuses the stone and leaves the board as it was.
    pub fn make_move(&mut self, p: &Player, mv: &ConnectFourMove) -> (r: Result<Score, Withdraw>)
        requires
            old(self).wf(),
        ensures
            final(self).wf(),
            playable(old(self)@, col_index(mv.data) as int) ==> {
                &&& final(self)@ == dropped(old(self)@, col_index(mv.data) as int, *p)
                &&& r == Ok::<Score, Withdraw>(
                    score_of(final(self)@, col_index(mv.data) as int, *p),
                )
            },
            !playable(old(self)@, col_index(mv.data) as int) ==> {
                &&& final(self)@ == old(self)@
                &&& r == Err::<Score, Withdraw>(Withdraw::NotAllowed)
            },
    {
        let n = mv.data.to_usize();
        if n >= WIDTH {
            return Err(Withdraw::NotAllowed);
        }
        assert(self.field@[n as int]@ == self@[n as int]);
        if self.field[n].len() >= HEIGHT {
            return Err(Withdraw::NotAllowed);
        }
        let ghost before = self@;
        self.field[n].push(Some(*p));
        assert(self@ =~~= dropped(before, n as int, *p));
        let m = self.field[n].len() - 1;
        Ok(self.get_score(*p, n, m))
    }

    /// Takes the top stone off the column of `mv`; the exact inverse of `make_move`.
    pub fn withdraw_move(&mut self, _p: &Player, mv: &ConnectFourMove)
        requires
            old(self).wf(),
        ensures
            final(self).wf(),
            final(self)@ == lifted(old(self)@, col_index(mv.data) as int),
    {
        let n = mv.data.to_usize();
        if n >= WIDTH {
            return;
        }
        let ghost before = self@;
        assert(self.field@[n as int]@ == self@[n as int]);
        if self.field[n].len() == 0 {
            return;
        }
        self.field[n].pop();
        assert(self@ =~~= lifted(before, n as int));
    }

    pub fn drop_stone(&mut self, p: &Player, c: Column) -> (r: Result<Score, Withdraw>)
        requires
            old(self).wf(),
        ensures
            final(self).wf(),
            playable(old(self)@, col_index(c) as int) ==> {
                &&& final(self)@ == dropped(old(self)@, col_index(c) as int, *p)
                &&& r == Ok::<Score, Withdraw>(score_of(final(self)@, col_index(c) as int, *p))
            },
            !playable(old(self)@, col_index(c) as int) ==> {
                &&& final(self)@ == old(self)@
                &&& r == Err::<Score, Withdraw>(Withdraw::NotAllowed)
            },
    {
        self.make_move(p, &ConnectFourMove { data: c })
    }

    pub fn undrop_stone(&mut self, p: &Player, c: Column)
        requires
            old(self).wf(),
        ensures
            final(self).wf(),
            final(self)@ == lifted(old(self)@, col_index(c) as int),
    {
        self.withdraw_move(p, &ConnectFourMove { data: c })
    }

    /// The columns that still take a stone, left to right.
    pub fn possible_moves(&self, _p: &Player) -> (r: Vec<ConnectFourMove>)
        requires
            self.wf(),
        ensures
            r@.len() == open_columns(self@, WIDTH as int).len(),
            forall|k: int|
                0 <= k < r@.len() ==> col_index(#[trigger] r@[k].data) == open_columns(
                    self@,
                    WIDTH as int,
                )[k],
    {
        let mut allowed: Vec<ConnectFourMove> = Vec::new();
        let mut i: usize = 0;
        while i < WIDTH
            invariant
                self.wf(),
                i <= WIDTH,
                allowed@.len() == open_columns(self@, i as int).len(),
                forall|k: int|
                    0 <= k < allowed@.len() ==> col_index(#[trigger] allowed@[k].data)
                        == open_columns(self@, i as int)[k],
            decreases WIDTH - i,
        {
            assert(self.field@[i as int]@ == self@[i as int]);
            if self.field[i].len() < HEIGHT {
                allowed.push(ConnectFourMove { data: Column::from_usize(i) });
            }
            i += 1;
        }
        allowed
    }

    /// A board made of the given columns.
    pub(crate) fn from_columns(field: Vec<Vec<Option<Player>>>) -> (r: ConnectFour)
        ensures
            r@ == field_view(field),
    {
        ConnectFour { field }
    }

    /// The board as text: a line of dashes, one line per column with its
    /// stones bottom-up ('x' black, 'o' white, 'n' gray), a line of dashes.
    pub fn display(&self) -> (r: String)
        requires
            self.wf(),
        ensures
            r@ == display_text(self@),
    {
        let mut s = String::new();
        s.append("------\n");
        let mut i: usize = 0;
        while i < self.field.len()
            invariant
                self.wf(),
                i <= WIDTH,
                s@ == "------\n"@ + columns_text(self@, i as int),
            decreases WIDTH - i,
        {
            let col = &self.field[i];
            assert(col@ == self@[i as int]);
            let ghost before = s@;
            let mut k: usize = 0;
            while k < col.len()
                invariant
                    k <= col@.len(),
                    s@ == before + column_text(col@.subrange(0, k as int)),
                decreases col@.len() - k,
            {
                match col[k] {
                    Some(Player::White) => s.append("o"),
                    Some(Player::Black) => s.append("x"),
                    Some(Player::Gray) => s.append("n"),
                    None => {},
                }
                proof {
                    reveal_strlit("o");
                    reveal_strlit("x");
                    reveal_strlit("n");
                    assert(col@.subrange(0, k + 1).drop_last() =~= col@.subrange(0, k as int));
                }
                k += 1;
            }
            s.append("\n");
            proof {
                reveal_strlit("\n");
                assert(col@.subrange(0, col@.len() as int) =~= col@);
                assert(columns_text(self@, i + 1) =~= columns_text(self@, i as int) + column_text(
                    self@[i as int],
                ) + seq!['\n']);
            }
            i += 1;
        }
        s.append("------");
        s
    }

    /// The board a plan describes, or `None` if the text is no plan: a line
    /// of six dashes, then one line per column with its stones bottom-up
    /// ('x' black, 'o' white, 'n' gray), then lines of six dashes.
    pub fn replicate(plan: &str) -> (r: Option<ConnectFour>)
        ensures
            r is Some <==> plan_valid(lines_of(plan.spec_bytes())),
            r matches Some(g) ==> g.wf() && g@ == plan_field(lines_of(plan.spec_bytes())),
    {
        let lines = split_lines(plan.as_bytes());
        let ghost ls = lines_view(lines);
        assert(ls == lines_of(plan.spec_bytes()));
        let mut field: Vec<Vec<Option<Player>>> = Vec::with_capacity(WIDTH);
        let mut i: usize = 0;
        while i < lines.len()
            invariant
                ls == lines_view(lines),
                ls == lines_of(plan.spec_bytes()),
                i <= lines@.len(),
                forall|q: int|
                    0 <= q < i ==> if 1 <= q <= WIDTH {
                        (#[trigger] ls[q]).len() <= HEIGHT && forall|j: int|
                            0 <= j < ls[q].len() ==> (#[trigger] stone_of(ls[q][j])) is Some
                    } else {
                        ls[q] == rule_line()
                    },
                field@.len() == (if i == 0 {
                    0
                } else if i - 1 < WIDTH {
                    i - 1
                } else {
                    WIDTH as int
                }),
                forall|c: int|
                    0 <= c < field@.len() ==> (#[trigger] field@[c])@ == ls[c + 1].map_values(
                        |b: u8| stone_of(b),
                    ),
            decreases lines@.len() - i,
        {
            let line = &lines[i];
            assert(line@ == ls[i as int]);
            if i >= 1 && i <= WIDTH {
                if line.len() > HEIGHT {
                    proof {
                        if plan_valid(ls) {
                            assert(ls[i as int].len() <= HEIGHT);
                        }
                    }
                    return None;
                }
                let mut col: Vec<Option<Player>> = Vec::with_capacity(HEIGHT);
                let mut j: usize = 0;
                while j < line.len()
                    invariant
                        ls == lines_view(lines),
                        ls == lines_of(plan.spec_bytes()),
                        1 <= i <= WIDTH,
                        i < ls.len(),
                        line@ == ls[i as int],
                        j <= line@.len(),
                        col@ == line@.subrange(0, j as int).map_values(|b: u8| stone_of(b)),
                        forall|q: int| 0 <= q < j ==> (#[trigger] stone_of(line@[q])) is Some,
                    decreases line@.len() - j,
                {
                    let st = stone_from(line[j]);
                    if st.is_none() {
                        proof {
                            if plan_valid(ls) {
                                assert(stone_of(ls[i as int][j as int]) is Some);
                            }
                        }
                        return None;
                    }
                    col.push(st);
                    assert(col@ =~= line@.subrange(0, j + 1).map_values(|b: u8| stone_of(b)));
                    j += 1;
                }
                assert(line@.subrange(0, line@.len() as int) =~= line@);
                field.push(col);
            } else {
                let mut ok = line.len() == 6;
                let mut j: usize = 0;
                while ok && j < line.len()
                    invariant
                        i < ls.len(),
                        line@ == ls[i as int],
                        j <= line@.len(),
                        ok ==> line@.len() == 6,
                        ok ==> forall|q: int| 0 <= q < j ==> line@[q] == 45u8,
                        !ok ==> line@ != rule_line(),
                    decreases line@.len() - j,
                {
                    if line[j] != 45 {
                        ok = false;
                    }
                    j += 1;
                }
                if !ok {
                    proof {
                        if plan_valid(ls) {
                            assert(ls[i as int] == rule_line());
                        }
                    }
                    return None;
                }
                assert(line@ =~= rule_line());
            }
            i += 1;
        }
        while field.len() < WIDTH
            invariant
                field@.len() <= WIDTH,
                field@.len() >= ls.len() - 1 || field@.len() >= WIDTH,
                forall|c: int|
                    0 <= c < field@.len() ==> (#[trigger] field@[c])@ == (if c + 1 < ls.len() {
                        ls[c + 1].map_values(|b: u8| stone_of(b))
                    } else {
                        Seq::empty()
                    }),
            decreases WIDTH - field@.len(),
        {
            field.push(Vec::new());
        }
        let g = ConnectFour { field };
        assert(g@ =~= plan_field(ls));
        assert(field_wf(g@)) by {
            assert forall|c: int| 0 <= c < WIDTH implies #[trigger] g@[c].len() <= HEIGHT && forall|
                r: int,
            | 0 <= r < g@[c].len() ==> #[trigger] g@[c][r] is Some by {
                if c + 1 < ls.len() {
                    assert(g@[c] == ls[c + 1].map_values(|b: u8| stone_of(b)));
                    assert forall|r: int| 0 <= r < g@[c].len() implies #[trigger] g@[c][r] is Some by {
                        assert(stone_of(ls[c + 1][r]) is Some);
                    }
                }
            }
        }
        Some(g)
    }
}

} // verus!
