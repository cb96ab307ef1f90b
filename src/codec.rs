//! Positions as integer keys: one base-4 digit per cell, column-major, each
//! column bottom-up in its own block of six digits. Digit 0 is an empty cell
//! and ends its column; 1, 2 and 3 are a white, black and gray stone.
use vstd::prelude::*;
use crate::board::{ConnectFour, Field, Player, HEIGHT, WIDTH, field_view, field_wf};

verus! {

/// The key of a position.
pub type GameHash = i128;

/// Number of distinct codes of one column: four to the power of its height.
pub const COLUMN_BASE: i128 = 4096;

pub open spec fn digit(x: Option<Player>) -> int {
    match x {
        None => 0,
        Some(Player::White) => 1,
        Some(Player::Black) => 2,
        Some(Player::Gray) => 3,
    }
}

pub open spec fn cell_of(d: int) -> Option<Player> {
    if d == 1 {
        Some(Player::White)
    } else if d == 2 {
        Some(Player::Black)
    } else if d == 3 {
        Some(Player::Gray)
    } else {
        None
    }
}

/// The code of one column: its bottom cell is the lowest digit.
pub open spec fn column_code(c: Seq<Option<Player>>) -> int
    decreases c.len(),
{
    if c.len() == 0 {
        0
    } else {
        digit(c[0]) + 4 * column_code(c.drop_first())
    }
}

/// The key of a board: its first column is the lowest block of digits.
pub open spec fn field_code(b: Field) -> int
    decreases b.len(),
{
    if b.len() == 0 {
        0
    } else {
        column_code(b[0]) + 4096 * field_code(b.drop_first())
    }
}

/// The column read from the lowest `k` digits of `x`, up to the first 0.
pub open spec fn column_of(x: int, k: nat) -> Seq<Option<Player>>
    decreases k,
{
    if k == 0 || x % 4 == 0 {
        Seq::empty()
    } else {
        seq![cell_of(x % 4)] + column_of(x / 4, (k - 1) as nat)
    }
}

/// The first `k` columns read from the key `h`.
pub open spec fn field_of(h: int, k: nat) -> Field
    decreases k,
{
    if k == 0 {
        Seq::empty()
    } else {
        seq![column_of(h as int % 4096, 6)] + field_of(h / 4096, (k - 1) as nat)
    }
}

pub open spec fn pow4(n: nat) -> int
    decreases n,
{
    if n == 0 {
        1
    } else {
        4 * pow4((n - 1) as nat)
    }
}

pub open spec fn pow4096(n: nat) -> int
    decreases n,
{
    if n == 0 {
        1
    } else {
        4096 * pow4096((n - 1) as nat)
    }
}

proof fn lemma_pow4_monotone(a: nat, b: nat)
    requires
        a <= b,
    ensures
        1 <= pow4(a) <= pow4(b),
    decreases b,
{
    if b > a {
        lemma_pow4_monotone(a, (b - 1) as nat);
    } else if a > 0 {
        lemma_pow4_monotone((a - 1) as nat, (a - 1) as nat);
    }
}

proof fn lemma_pow4096_monotone(a: nat, b: nat)
    requires
        a <= b,
    ensures
        1 <= pow4096(a) <= pow4096(b),
    decreases b,
{
    if b > a {
        lemma_pow4096_monotone(a, (b - 1) as nat);
    } else if a > 0 {
        lemma_pow4096_monotone((a - 1) as nat, (a - 1) as nat);
    }
}

proof fn lemma_column_code_bound(c: Seq<Option<Player>>)
    ensures
        0 <= column_code(c) < pow4(c.len()),
    decreases c.len(),
{
    if c.len() > 0 {
        lemma_column_code_bound(c.drop_first());
    }
}

/// A column of at most six cells has a code below 4096.
proof fn lemma_column_code_fits(c: Seq<Option<Player>>)
    requires
        c.len() <= HEIGHT,
    ensures
        0 <= column_code(c) < 4096,
{
    lemma_column_code_bound(c);
    lemma_pow4_monotone(c.len(), 6);
    reveal_with_fuel(pow4, 7);
    assert(pow4(6) == 4096);
}

pub open spec fn columns_fit(b: Field) -> bool {
    forall|c: int| 0 <= c < b.len() ==> (#[trigger] b[c]).len() <= HEIGHT
}

proof fn lemma_field_code_bound(b: Field)
    requires
        columns_fit(b),
    ensures
        0 <= field_code(b) < pow4096(b.len()),
    decreases b.len(),
{
    if b.len() > 0 {
        assert(columns_fit(b.drop_first())) by {
            assert forall|c: int| 0 <= c < b.drop_first().len() implies (
            #[trigger] b.drop_first()[c]).len() <= HEIGHT by {
                assert(b.drop_first()[c] == b[c + 1]);
            }
        }
        lemma_field_code_bound(b.drop_first());
        lemma_column_code_fits(b[0]);
    }
}

proof fn lemma_digit_split(d: int, rest: int)
    requires
        0 <= d < 4,
        0 <= rest,
    ensures
        (d + 4 * rest) % 4 == d,
        (d + 4 * rest) / 4 == rest,
{
    assert((d + 4 * rest) % 4 == d) by (nonlinear_arith)
        requires
            0 <= d < 4,
            0 <= rest,
    ;
    assert((d + 4 * rest) / 4 == rest) by (nonlinear_arith)
        requires
            0 <= d < 4,
            0 <= rest,
    ;
}

proof fn lemma_block_split(x: int, rest: int)
    requires
        0 <= x < 4096,
        0 <= rest,
    ensures
        (x + 4096 * rest) % 4096 == x,
        (x + 4096 * rest) / 4096 == rest,
{
    assert((x + 4096 * rest) % 4096 == x) by (nonlinear_arith)
        requires
            0 <= x < 4096,
            0 <= rest,
    ;
    assert((x + 4096 * rest) / 4096 == rest) by (nonlinear_arith)
        requires
            0 <= x < 4096,
            0 <= rest,
    ;
}

/// A column without gaps reads back from its own code.
proof fn lemma_column_round_trip(c: Seq<Option<Player>>, k: nat)
    requires
        c.len() <= k,
        forall|r: int| 0 <= r < c.len() ==> #[trigger] c[r] is Some,
    ensures
        column_of(column_code(c), k) == c,
    decreases c.len(),
{
    if c.len() == 0 {
        assert(column_of(0, k) =~= c);
    } else {
        let rest = c.drop_first();
        assert forall|r: int| 0 <= r < rest.len() implies #[trigger] rest[r] is Some by {
            assert(rest[r] == c[r + 1]);
        }
        lemma_column_code_bound(rest);
        assert(c[0] is Some);
        lemma_digit_split(digit(c[0]), column_code(rest));
        lemma_column_round_trip(rest, (k - 1) as nat);
        assert(cell_of(digit(c[0])) == c[0]);
        assert(column_of(column_code(c), k) =~= c);
    }
}

proof fn lemma_field_round_trip(b: Field)
    requires
        forall|c: int|
            0 <= c < b.len() ==> (#[trigger] b[c]).len() <= HEIGHT && forall|r: int|
                0 <= r < b[c].len() ==> #[trigger] b[c][r] is Some,
    ensures
        field_of(field_code(b), b.len()) == b,
    decreases b.len(),
{
    if b.len() == 0 {
        assert(field_of(0, 0) =~= b);
    } else {
        let rest = b.drop_first();
        assert forall|c: int| 0 <= c < rest.len() implies (#[trigger] rest[c]).len() <= HEIGHT
            && forall|r: int| 0 <= r < rest[c].len() ==> #[trigger] rest[c][r] is Some by {
            assert(rest[c] == b[c + 1]);
        }
        lemma_field_round_trip(rest);
        assert(columns_fit(rest)) by {
            assert forall|c: int| 0 <= c < rest.len() implies (#[trigger] rest[c]).len()
                <= HEIGHT by {
                assert(rest[c] == b[c + 1]);
            }
        }
        lemma_field_code_bound(rest);
        assert(b[0].len() <= HEIGHT);
        lemma_column_code_fits(b[0]);
        lemma_block_split(column_code(b[0]), field_code(rest));
        lemma_column_round_trip(b[0], 6);
        assert(field_of(field_code(b), b.len()) =~= b);
    }
}

/// Decoding the key of a well-formed board gives back that board, cell for cell.
pub proof fn lemma_decode_encode(b: Field)
    requires
        field_wf(b),
    ensures
        field_of(field_code(b), WIDTH as nat) == b,
        field_code(b) >= 0,
{
    lemma_field_round_trip(b);
    assert(columns_fit(b));
    lemma_field_code_bound(b);
}


fn digit_of(x: Option<Player>) -> (d: i128)
    ensures
        d == digit(x),
{
    match x {
        None => 0,
        Some(Player::White) => 1,
        Some(Player::Black) => 2,
        Some(Player::Gray) => 3,
    }
}

/// The code of one column of at most six cells.
fn column_hash(col: &Vec<Option<Player>>) -> (x: i128)
    requires
        col@.len() <= HEIGHT,
    ensures
        x == column_code(col@),
{
    let mut x: i128 = 0;
    let mut j: usize = col.len();
    while j > 0
        invariant
            j <= col@.len() <= HEIGHT,
            x == column_code(col@.subrange(j as int, col@.len() as int)),
        decreases j,
    {
        j -= 1;
        let d = digit_of(col[j]);
        proof {
            let sub = col@.subrange(j as int, col@.len() as int);
            assert(sub.drop_first() =~= col@.subrange(j + 1, col@.len() as int));
            lemma_column_code_fits(sub.drop_first());
        }
        x = d + 4 * x;
    }
    assert(col@.subrange(0, col@.len() as int) =~= col@);
    x
}

/// The key of a board given by its columns: each cell a base-4 digit, the
/// first column lowest, each column bottom-up in a block of six digits.
pub fn hash_from_state(state: &Vec<Vec<Option<Player>>>) -> (r: GameHash)
    requires
        state@.len() <= WIDTH,
        columns_fit(field_view(*state)),
    ensures
        r == field_code(field_view(*state)),
        r >= 0,
{
    let ghost b = field_view(*state);
    let mut s: i128 = 0;
    let mut ci: usize = state.len();
    proof {
        lemma_pow4096_monotone(0, 0);
    }
    while ci > 0
        invariant
            ci <= state@.len() <= WIDTH,
            b == field_view(*state),
            columns_fit(b),
            s == field_code(b.subrange(ci as int, b.len() as int)),
            0 <= s < pow4096((b.len() - ci) as nat),
        decreases ci,
    {
        ci -= 1;
        assert(state@[ci as int]@ == b[ci as int]);
        let x = column_hash(&state[ci]);
        proof {
            let sub = b.subrange(ci as int, b.len() as int);
            assert(sub.drop_first() =~= b.subrange(ci + 1, b.len() as int));
            assert(sub[0] == b[ci as int]);
            lemma_column_code_fits(b[ci as int]);
            lemma_pow4096_monotone((b.len() - ci) as nat, 7);
            reveal_with_fuel(pow4096, 8);
            assert(pow4096(7) == 0x1000000000000000000000);
        }
        s = x + COLUMN_BASE * s;
    }
    assert(b.subrange(0, b.len() as int) =~= b);
    s
}

fn cell_from(d: i128) -> (c: Option<Player>)
    requires
        1 <= d <= 3,
    ensures
        c == cell_of(d as int),
        c is Some,
{
    if d == 1 {
        Some(Player::White)
    } else if d == 2 {
        Some(Player::Black)
    } else {
        Some(Player::Gray)
    }
}

/// The column held in a block of six digits.
fn column_from_code(x: i128) -> (col: Vec<Option<Player>>)
    requires
        0 <= x < 4096,
    ensures
        col@ == column_of(x as int, 6),
        col@.len() <= HEIGHT,
        forall|r: int| 0 <= r < col@.len() ==> #[trigger] col@[r] is Some,
{
    let mut col: Vec<Option<Player>> = Vec::with_capacity(HEIGHT);
    let mut cr: i128 = x;
    let mut k: usize = 0;
    while k < HEIGHT
        invariant
            k <= HEIGHT,
            col@.len() == k,
            0 <= cr <= x,
            column_of(x as int, 6) == col@ + column_of(cr as int, (6 - k) as nat),
            forall|r: int| 0 <= r < col@.len() ==> #[trigger] col@[r] is Some,
        decreases HEIGHT - k,
    {
        let d = cr % 4;
        if d == 0 {
            assert(column_of(cr as int, (6 - k) as nat) =~= Seq::empty());
            assert(col@ + Seq::<Option<Player>>::empty() =~= col@);
            return col;
        }
        let ghost before = col@;
        col.push(cell_from(d));
        proof {
            assert(column_of(cr as int, (6 - k) as nat) == seq![cell_of(d as int)] + column_of(
                cr / 4,
                (6 - k - 1) as nat,
            ));
            assert(before + (seq![cell_of(d as int)] + column_of(cr / 4, (6 - k - 1) as nat))
                =~= col@ + column_of(cr / 4, (6 - k - 1) as nat));
        }
        cr = cr / 4;
        k += 1;
    }
    assert(column_of(cr as int, 0) =~= Seq::empty());
    assert(col@ + Seq::<Option<Player>>::empty() =~= col@);
    col
}

/// The board held in a key; digits above a column's first 0 are not read.
pub fn game_from_hash(hash: GameHash) -> (r: ConnectFour)
    requires
        hash >= 0,
    ensures
        r.wf(),
        r@ == field_of(hash as int, WIDTH as nat),
{
    let mut field: Vec<Vec<Option<Player>>> = Vec::with_capacity(WIDTH);
    let mut h: i128 = hash;
    let mut ci: usize = 0;
    while ci < WIDTH
        invariant
            ci <= WIDTH,
            h >= 0,
            field@.len() == ci,
            field_of(hash as int, WIDTH as nat) == field_view(field) + field_of(
                h as int,
                (WIDTH - ci) as nat,
            ),
            forall|c: int|
                0 <= c < ci ==> (#[trigger] field@[c])@.len() <= HEIGHT && forall|r: int|
                    0 <= r < field@[c]@.len() ==> #[trigger] field@[c]@[r] is Some,
        decreases WIDTH - ci,
    {
        let col = column_from_code(h % COLUMN_BASE);
        let ghost before = field_view(field);
        field.push(col);
        proof {
            assert(field_view(field) =~= before.push(column_of(h as int % 4096, 6)));
            assert(before + (seq![column_of(h as int % 4096, 6)] + field_of(
                h as int / 4096,
                (WIDTH - ci - 1) as nat,
            )) =~= field_view(field) + field_of(h as int / 4096, (WIDTH - ci - 1) as nat));
        }
        h = h / COLUMN_BASE;
        ci += 1;
    }
    assert(field_view(field) + field_of(h as int, 0) =~= field_view(field));
    let r = ConnectFour::from_columns(field);
    assert(field_wf(r@)) by {
        assert forall|c: int| 0 <= c < WIDTH implies #[trigger] r@[c].len() <= HEIGHT && forall|
            rr: int,
        | 0 <= rr < r@[c].len() ==> #[trigger] r@[c][rr] is Some by {
            assert(r@[c] == field@[c]@);
        }
    }
    r
}

/// Every key is non-negative.
pub proof fn lemma_key_nonneg(b: Field)
    ensures
        field_code(b) >= 0,
    decreases b.len(),
{
    if b.len() > 0 {
        lemma_column_code_bound(b[0]);
        lemma_key_nonneg(b.drop_first());
    }
}

/// The key of a board fits an `i128` with room to spare: it is below 2^84.
pub proof fn lemma_key_fits(b: Field)
    requires
        field_wf(b),
    ensures
        0 <= field_code(b) < 0x1000000000000000000000,
{
    assert(columns_fit(b));
    lemma_field_code_bound(b);
    reveal_with_fuel(pow4096, 8);
    assert(pow4096(7) == 0x1000000000000000000000);
}

/// Decoding the key of a board gives back the board.
pub proof fn lemma_hash_round_trip(b: Field)
    requires
        field_wf(b),
    ensures
        field_code(b) >= 0,
        field_of(field_code(b), WIDTH as nat) == b,
{
    lemma_decode_encode(b);
}


/// The key of a board.
pub fn hash_from_game(game: &ConnectFour) -> (r: GameHash)
    requires
        game.wf(),
    ensures
        r == field_code(game@),
        r >= 0,
{
    let st = game.state();
    proof {
        assert(columns_fit(field_view(*st)));
    }
    hash_from_state(st)
}

} // verus!
