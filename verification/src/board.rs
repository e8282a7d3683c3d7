use vstd::prelude::*;
use vstd::assert_seqs_equal;

verus! {

/// A cell is dead (0) or alive (1).
pub open spec fn cell_ok(v: u8) -> bool {
    v == 0 || v == 1
}

/// An all-dead board: `rows` rows of `columns` dead cells each.
pub open spec fn empty_board(rows: nat, columns: nat) -> Seq<Seq<u8>> {
    Seq::new(rows, |i: int| Seq::new(columns, |j: int| 0u8))
}

/// Well-formedness of a board: at least one row and one column, all rows of
/// equal length, and every cell either dead or alive.
pub open spec fn is_board(b: Seq<Seq<u8>>) -> bool {
    &&& 1 <= b.len()
    &&& 1 <= b[0].len()
    &&& forall|i: int| 0 <= i < b.len() ==> #[trigger] b[i].len() == b[0].len()
    &&& forall|i: int, j: int| 0 <= i < b.len() && 0 <= j < b[0].len() ==> cell_ok(#[trigger] b[i][j])
}

/// Creates an all-dead board of the given dimensions.
pub fn create_empty_board(rows: u32, columns: u32) -> (board: Vec<Vec<u8>>)
    requires
        1 <= rows,
        1 <= columns,
    ensures
        board.deep_view() == empty_board(rows as nat, columns as nat),
        is_board(board.deep_view()),
{
    let mut board: Vec<Vec<u8>> = Vec::new();
    let mut i: u32 = 0;
    while i < rows
        invariant
            i <= rows,
            board.deep_view() == empty_board(i as nat, columns as nat),
        decreases rows - i,
    {
        let mut row: Vec<u8> = Vec::new();
        let mut j: u32 = 0;
        while j < columns
            invariant
                j <= columns,
                row@ == Seq::new(j as nat, |k: int| 0u8),
            decreases columns - j,
        {
            row.push(0u8);
            proof {
                assert(row@ =~= Seq::new(j as nat + 1, |k: int| 0u8));
            }
            j = j + 1;
        }
        let ghost prev = board.deep_view();
        let ghost rowv = row@;
        board.push(row);
        proof {
            assert(board.deep_view().len() == board@.len());
            assert(board@.len() == prev.len() + 1);
            assert(prev.len() == i as int);
            assert(empty_board(i as nat + 1, columns as nat).len() == i as int + 1);
            assert_seqs_equal!(board.deep_view() == empty_board(i as nat + 1, columns as nat), k => {
                if k < prev.len() {
                    assert(board.deep_view()[k] == prev[k]);
                    assert(prev[k] == empty_board(i as nat, columns as nat)[k]);
                    assert(empty_board(i as nat + 1, columns as nat)[k]
                        =~= empty_board(i as nat, columns as nat)[k]);
                } else {
                    assert(board@[k]@ == rowv);
                    assert(board.deep_view()[k] =~= rowv);
                    assert(empty_board(i as nat + 1, columns as nat)[k] =~= rowv);
                }
            });
        }
        i = i + 1;
    }
    proof {
        assert(is_board(board.deep_view()));
    }
    board
}

/// The number of live cells in one row.
pub open spec fn row_alive(r: Seq<u8>) -> int
    decreases r.len(),
{
    if r.len() == 0 {
        0
    } else {
        row_alive(r.drop_last()) + if r.last() == 1 {
            1int
        } else {
            0int
        }
    }
}

/// The number of live cells on a board.
pub open spec fn board_alive(b: Seq<Seq<u8>>) -> int
    decreases b.len(),
{
    if b.len() == 0 {
        0
    } else {
        board_alive(b.drop_last()) + row_alive(b.last())
    }
}

/// The second board has the dimensions of the first.
pub open spec fn same_dims(b0: Seq<Seq<u8>>, b1: Seq<Seq<u8>>) -> bool {
    &&& b1.len() == b0.len()
    &&& forall|i: int| 0 <= i < b1.len() ==> #[trigger] b1[i].len() == b0[i].len()
}

/// Every cell alive on the first board is alive on the second.
pub open spec fn preserves_alive(b0: Seq<Seq<u8>>, b1: Seq<Seq<u8>>) -> bool {
    forall|i: int, j: int|
        0 <= i < b0.len() && 0 <= j < b0[0].len() && b0[i][j] == 1 ==> #[trigger] b1[i][j] == 1
}

/// A row holds no more live cells than it has cells.
pub proof fn lemma_row_alive_bounds(r: Seq<u8>)
    ensures
        0 <= row_alive(r) <= r.len(),
    decreases r.len(),
{
    if r.len() > 0 {
        lemma_row_alive_bounds(r.drop_last());
    }
}

/// A board whose rows are no longer than `c` holds at most `len * c` live cells.
pub proof fn lemma_board_alive_bounds(b: Seq<Seq<u8>>, c: int)
    requires
        0 <= c,
        forall|i: int| 0 <= i < b.len() ==> #[trigger] b[i].len() <= c,
    ensures
        0 <= board_alive(b) <= b.len() * c,
    decreases b.len(),
{
    if b.len() > 0 {
        assert(forall|i: int| 0 <= i < b.drop_last().len() ==> #[trigger] b.drop_last()[i].len() <= c);
        lemma_board_alive_bounds(b.drop_last(), c);
        lemma_row_alive_bounds(b.last());
        assert((b.len() - 1) * c + c == b.len() * c) by (nonlinear_arith);
    }
}

/// Updating one cell changes the row's live count by the difference of the
/// old and the new value.
pub proof fn lemma_row_alive_update(r: Seq<u8>, j: int, v: u8)
    requires
        0 <= j < r.len(),
    ensures
        row_alive(r.update(j, v)) == row_alive(r) - (if r[j] == 1 {
            1int
        } else {
            0int
        }) + (if v == 1 {
            1int
        } else {
            0int
        }),
    decreases r.len(),
{
    let r2 = r.update(j, v);
    if j == r.len() - 1 {
        assert(r2.drop_last() =~= r.drop_last());
        assert(r2.last() == v);
    } else {
        assert(r2.drop_last() =~= r.drop_last().update(j, v));
        lemma_row_alive_update(r.drop_last(), j, v);
        assert(r2.last() == r.last());
    }
}

/// Replacing one row changes the board's live count by the difference of the
/// old and the new row's live counts.
pub proof fn lemma_board_alive_update_row(b: Seq<Seq<u8>>, i: int, r2: Seq<u8>)
    requires
        0 <= i < b.len(),
    ensures
        board_alive(b.update(i, r2)) == board_alive(b) - row_alive(b[i]) + row_alive(r2),
    decreases b.len(),
{
    let b2 = b.update(i, r2);
    if i == b.len() - 1 {
        assert(b2.drop_last() =~= b.drop_last());
        assert(b2.last() == r2);
    } else {
        assert(b2.drop_last() =~= b.drop_last().update(i, r2));
        lemma_board_alive_update_row(b.drop_last(), i, r2);
        assert(b2.last() == b.last());
    }
}

/// A row of live cells only has as many live cells as cells.
pub proof fn lemma_row_alive_full(r: Seq<u8>)
    requires
        forall|j: int| 0 <= j < r.len() ==> #[trigger] r[j] == 1,
    ensures
        row_alive(r) == r.len(),
    decreases r.len(),
{
    if r.len() > 0 {
        lemma_row_alive_full(r.drop_last());
    }
}

/// A rectangular board of live cells only holds `len * c` live cells.
pub proof fn lemma_board_alive_full(b: Seq<Seq<u8>>, c: int)
    requires
        0 <= c,
        forall|i: int| 0 <= i < b.len() ==> #[trigger] b[i].len() == c,
        forall|i: int, j: int| 0 <= i < b.len() && 0 <= j < c ==> #[trigger] b[i][j] == 1,
    ensures
        board_alive(b) == b.len() * c,
    decreases b.len(),
{
    if b.len() > 0 {
        assert(forall|i: int| 0 <= i < b.drop_last().len() ==> #[trigger] b.drop_last()[i].len() == c);
        assert(forall|i: int, j: int|
            0 <= i < b.drop_last().len() && 0 <= j < c ==> #[trigger] b.drop_last()[i][j] == 1);
        lemma_board_alive_full(b.drop_last(), c);
        assert(forall|j: int| 0 <= j < b.last().len() ==> #[trigger] b.last()[j] == 1);
        lemma_row_alive_full(b.last());
        assert((b.len() - 1) * c + c == b.len() * c) by (nonlinear_arith);
    }
}

/// A board with fewer live cells than cells has a dead cell somewhere.
pub proof fn lemma_dead_cell_exists(b: Seq<Seq<u8>>)
    requires
        is_board(b),
        board_alive(b) < b.len() * b[0].len(),
    ensures
        exists|i: int, j: int| 0 <= i < b.len() && 0 <= j < b[0].len() && b[i][j] == 0,
{
    if !(exists|i: int, j: int| 0 <= i < b.len() && 0 <= j < b[0].len() && b[i][j] == 0) {
        assert forall|i: int, j: int| 0 <= i < b.len() && 0 <= j < b[0].len() implies #[trigger] b[i][j]
            == 1 by {
            assert(cell_ok(b[i][j]));
            assert(!(0 <= i < b.len() && 0 <= j < b[0].len() && b[i][j] == 0));
        }
        lemma_board_alive_full(b, b[0].len() as int);
        assert(false);
    }
}

/// A step of the overflow argument for counting live cells: one more row
/// never pushes the running count past what a board can hold.
proof fn lemma_count_step(n: int, r: int, i: int)
    by (nonlinear_arith)
    requires
        0 <= i < 0xffff_ffff_ffff_ffff,
        n <= i * 0xffff_ffff_ffff_ffff,
        0 <= r <= 0xffff_ffff_ffff_ffff,
    ensures
        n + r <= (i + 1) * 0xffff_ffff_ffff_ffff,
        n + r < 0xffff_ffff_ffff_ffff_ffff_ffff_ffff_ffff,
{
}

/// Counts the live cells in one row.
fn count_row_alive(row: &Vec<u8>) -> (n: u64)
    ensures
        n == row_alive(row@),
        n <= row@.len(),
{
    let mut n: u64 = 0;
    let mut j: usize = 0;
    while j < row.len()
        invariant
            j <= row@.len(),
            n == row_alive(row@.take(j as int)),
            n <= j,
        decreases row@.len() - j,
    {
        proof {
            assert(row@.take(j as int + 1).drop_last() =~= row@.take(j as int));
            assert(row@.take(j as int + 1).last() == row@[j as int]);
        }
        if row[j] == 1 {
            n = n + 1;
        }
        j = j + 1;
    }
    proof {
        assert(row@.take(row@.len() as int) =~= row@);
    }
    n
}

/// Counts the live cells on a board.
pub fn count_alive_cells(board: &Vec<Vec<u8>>) -> (n: u128)
    ensures
        n == board_alive(board.deep_view()),
{
    let ghost b = board.deep_view();
    let mut n: u128 = 0;
    let mut i: usize = 0;
    while i < board.len()
        invariant
            b == board.deep_view(),
            i <= b.len(),
            n == board_alive(b.take(i as int)),
            n <= i * 0xffff_ffff_ffff_ffffu64 as int,
        decreases b.len() - i,
    {
        proof {
            assert(b.take(i as int + 1).drop_last() =~= b.take(i as int));
            assert(b.take(i as int + 1).last() == b[i as int]);
            assert(board@[i as int]@ == b[i as int]);
        }
        let r = count_row_alive(&board[i]);
        proof {
            assert(r <= 0xffff_ffff_ffff_ffffu64 as int);
            lemma_count_step(n as int, r as int, i as int);
        }
        n = n + r as u128;
        i = i + 1;
    }
    proof {
        assert(b.take(b.len() as int) =~= b);
    }
    n
}

/// The fatal configuration error of the core: a seeding request asked for
/// more live cells than the board has dead cells.
#[derive(Clone, Copy, Debug, PartialEq, Eq, Structural)]
pub enum ConfigError {
    AliveCellsExceedCapacity,
}

impl ConfigError {
    /// A message naming the violated constraint.
    pub fn message(&self) -> (m: &'static str)
        ensures
            m@ == "the requested number of alive cells exceeds the number of dead cells on the board"@,
    {
        "the requested number of alive cells exceeds the number of dead cells on the board"
    }
}

/// Sets the cell at (r, c) to `v`; every other cell and all dimensions stay.
fn set_cell(board: &mut Vec<Vec<u8>>, r: usize, c: usize, v: u8)
    requires
        r < old(board).deep_view().len(),
        c < old(board).deep_view()[r as int].len(),
    ensures
        final(board).deep_view() == old(board).deep_view().update(
            r as int,
            old(board).deep_view()[r as int].update(c as int, v),
        ),
{
    let ghost dv0 = board.deep_view();
    board[r][c] = v;
    proof {
        let target = dv0.update(r as int, dv0[r as int].update(c as int, v));
        assert(board@.len() == dv0.len());
        assert_seqs_equal!(board.deep_view() == target, k => {
            if k == r as int {
                assert(board@[k]@ == dv0[k].update(c as int, v));
                assert(board.deep_view()[k] =~= dv0[k].update(c as int, v));
            } else {
                assert(board@[k]@ == dv0[k]);
                assert(board.deep_view()[k] =~= dv0[k]);
            }
        });
    }
}

/// Flips a dead cell to alive: the board keeps its dimensions, every live
/// cell stays live, and the live count grows by exactly one.
fn flip_dead_cell(board: &mut Vec<Vec<u8>>, r: usize, c: usize)
    requires
        is_board(old(board).deep_view()),
        r < old(board).deep_view().len(),
        c < old(board).deep_view()[0].len(),
        old(board).deep_view()[r as int][c as int] == 0,
    ensures
        is_board(final(board).deep_view()),
        same_dims(old(board).deep_view(), final(board).deep_view()),
        preserves_alive(old(board).deep_view(), final(board).deep_view()),
        board_alive(final(board).deep_view()) == board_alive(old(board).deep_view()) + 1,
        final(board).deep_view()[0].len() == old(board).deep_view()[0].len(),
{
    let ghost b0 = board.deep_view();
    set_cell(board, r, c, 1);
    proof {
        let b1 = board.deep_view();
        let row1 = b0[r as int].update(c as int, 1u8);
        lemma_board_alive_update_row(b0, r as int, row1);
        lemma_row_alive_update(b0[r as int], c as int, 1u8);
        assert(board_alive(b1) == board_alive(b0) + 1);
        assert forall|i: int| 0 <= i < b1.len() implies #[trigger] b1[i].len() == b0[i].len() by {
            if i == r as int {
                assert(b1[i] == row1);
            }
        }
        assert(same_dims(b0, b1));
        assert forall|i: int, j: int|
            0 <= i < b0.len() && 0 <= j < b0[0].len() && b0[i][j] == 1 implies #[trigger] b1[i][j]
            == 1 by {
            if i == r as int && j == c as int {
                assert(b0[i][j] == 0);
            } else if i == r as int {
                assert(b1[i][j] == row1[j]);
            } else {
                assert(b1[i][j] == b0[i][j]);
            }
        }
        assert(preserves_alive(b0, b1));
        assert forall|i: int, j: int|
            0 <= i < b1.len() && 0 <= j < b1[0].len() implies cell_ok(#[trigger] b1[i][j]) by {
            if i == r as int {
                assert(b1[i][j] == row1[j]);
                if j != c as int {
                    assert(row1[j] == b0[i][j]);
                }
            } else {
                assert(b1[i][j] == b0[i][j]);
            }
        }
        assert(is_board(b1));
    }
}

/// Finds a dead cell by scanning the board in row-major order; the
/// deterministic fallback that keeps the seeding loop terminating.
fn find_dead_cell(board: &Vec<Vec<u8>>) -> (rc: (usize, usize))
    requires
        is_board(board.deep_view()),
        exists|i: int, j: int|
            0 <= i < board.deep_view().len() && 0 <= j < board.deep_view()[0].len()
                && board.deep_view()[i][j] == 0,
    ensures
        rc.0 < board.deep_view().len(),
        rc.1 < board.deep_view()[0].len(),
        board.deep_view()[rc.0 as int][rc.1 as int] == 0,
{
    let ghost b = board.deep_view();
    let rows = board.len();
    let columns = board[0].len();
    proof {
        assert(board@[0]@ == b[0]);
    }
    let mut i: usize = 0;
    while i < rows
        invariant
            b == board.deep_view(),
            is_board(b),
            rows == b.len(),
            columns == b[0].len(),
            i <= rows,
            forall|p: int, q: int| 0 <= p < i && 0 <= q < columns ==> #[trigger] b[p][q] != 0,
            exists|p: int, q: int| 0 <= p < b.len() && 0 <= q < b[0].len() && b[p][q] == 0,
        decreases rows - i,
    {
        let mut j: usize = 0;
        while j < columns
            invariant
                b == board.deep_view(),
                is_board(b),
                rows == b.len(),
                columns == b[0].len(),
                i < rows,
                j <= columns,
                forall|q: int| 0 <= q < j ==> #[trigger] b[i as int][q] != 0,
            decreases columns - j,
        {
            proof {
                assert(board@[i as int]@ == b[i as int]);
            }
            if board[i][j] == 0 {
                return (i, j);
            }
            j = j + 1;
        }
        i = i + 1;
    }
    proof {
        let (wp, wq) = choose|wp: int, wq: int|
            0 <= wp < b.len() && 0 <= wq < b[0].len() && b[wp][wq] == 0;
        assert(b[wp][wq] != 0);
        assert(false);
    }
    vstd::pervasive::unreached()
}

/// The product of two machine-word-sized counts fits in 128 bits.
proof fn lemma_cell_total_fits(a: int, b: int)
    by (nonlinear_arith)
    requires
        0 <= a <= 0xffff_ffff_ffff_ffff,
        0 <= b <= 0xffff_ffff_ffff_ffff,
    ensures
        0 <= a * b <= 0xffff_ffff_ffff_ffff_ffff_ffff_ffff_ffff,
{
}

/// Preserving dimensions and live cells is transitive.
proof fn lemma_preserves_alive_trans(b0: Seq<Seq<u8>>, b1: Seq<Seq<u8>>, b2: Seq<Seq<u8>>)
    requires
        0 < b0.len(),
        same_dims(b0, b1),
        preserves_alive(b0, b1),
        same_dims(b1, b2),
        preserves_alive(b1, b2),
    ensures
        same_dims(b0, b2),
        preserves_alive(b0, b2),
{
    assert forall|i: int| 0 <= i < b2.len() implies #[trigger] b2[i].len() == b0[i].len() by {
        assert(b1[i].len() == b0[i].len());
    }
    assert(b1[0].len() == b0[0].len());
    assert forall|i: int, j: int|
        0 <= i < b0.len() && 0 <= j < b0[0].len() && b0[i][j] == 1 implies #[trigger] b2[i][j]
        == 1 by {
        assert(b1[i][j] == 1);
    }
}

/// How many failed draws the seeding loop accepts before it falls back to a
/// deterministic scan for a dead cell, so that the loop provably terminates.
const REDRAW_LIMIT: u64 = 1048576;

/// Randomly flips `num_alive_cells` dead cells to alive, drawing positions
/// from a generator built from `seed` alone, so that equal seeds and
/// dimensions reproduce the same board. A draw that lands on a live cell is
/// discarded and redrawn; after `REDRAW_LIMIT` consecutive discards the next
/// dead cell in row-major order is taken instead. Returns the configuration
/// error, leaving the board untouched, when the request exceeds the number
/// of dead cells on the board.
pub fn add_random_alive_cells(board: &mut Vec<Vec<u8>>, num_alive_cells: u64, seed: u8) -> (result:
    Result<(), ConfigError>)
    requires
        is_board(old(board).deep_view()),
    ensures
        ({
            let b0 = old(board).deep_view();
            let b1 = final(board).deep_view();
            match result {
                Ok(()) => {
                    &&& is_board(b1)
                    &&& same_dims(b0, b1)
                    &&& preserves_alive(b0, b1)
                    &&& board_alive(b1) == board_alive(b0) + num_alive_cells
                    &&& num_alive_cells + board_alive(b0) <= b0.len() * b0[0].len()
                },
                Err(e) => {
                    &&& b1 == b0
                    &&& num_alive_cells + board_alive(b0) > b0.len() * b0[0].len()
                    &&& e == ConfigError::AliveCellsExceedCapacity
                },
            }
        }),
{
    let ghost b0 = board.deep_view();
    let rows = board.len();
    let columns = board[0].len();
    proof {
        assert(board@[0]@ == b0[0]);
        lemma_cell_total_fits(rows as int, columns as int);
        lemma_board_alive_bounds(b0, b0[0].len() as int);
    }
    let alive0 = count_alive_cells(board);
    let total: u128 = (rows as u128) * (columns as u128);
    if (num_alive_cells as u128) > total - alive0 {
        return Err(ConfigError::AliveCellsExceedCapacity);
    }
    let mut rng = crate::rng::rng_from_seed(seed);
    let mut flips: u64 = 0;
    let mut budget: u64 = REDRAW_LIMIT;
    while flips < num_alive_cells
        invariant
            is_board(b0),
            rows == b0.len(),
            columns == b0[0].len(),
            is_board(board.deep_view()),
            same_dims(b0, board.deep_view()),
            preserves_alive(b0, board.deep_view()),
            board_alive(board.deep_view()) == board_alive(b0) + flips,
            flips <= num_alive_cells,
            num_alive_cells + board_alive(b0) <= b0.len() * b0[0].len(),
        decreases num_alive_cells - flips, budget,
    {
        let ghost prev = board.deep_view();
        proof {
            assert(prev.len() == b0.len());
            assert(prev[0].len() == b0[0].len());
        }
        let r = crate::rng::draw_index(&mut rng, rows);
        let c = crate::rng::draw_index(&mut rng, columns);
        proof {
            assert(board@[r as int]@ == board.deep_view()[r as int]);
        }
        if board[r][c] == 0 {
            flip_dead_cell(board, r, c);
            flips = flips + 1;
            budget = REDRAW_LIMIT;
            proof {
                lemma_preserves_alive_trans(b0, prev, board.deep_view());
            }
        } else if budget > 0 {
            budget = budget - 1;
        } else {
            proof {
                lemma_board_alive_bounds(prev, prev[0].len() as int);
                assert(board_alive(prev) < prev.len() * prev[0].len());
                lemma_dead_cell_exists(prev);
            }
            let rc = find_dead_cell(board);
            flip_dead_cell(board, rc.0, rc.1);
            flips = flips + 1;
            budget = REDRAW_LIMIT;
            proof {
                lemma_preserves_alive_trans(b0, prev, board.deep_view());
            }
        }
    }
    Ok(())
}

} // verus!
