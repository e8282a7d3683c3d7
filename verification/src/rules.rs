use vstd::prelude::*;
use vstd::assert_seqs_equal;
use crate::board::{cell_ok, is_board};

verus! {

/// The contribution of position (i, j) to a neighbour count: 1 when the
/// position lies on the board and holds a live cell, 0 otherwise (so
/// positions outside the board never count: the grid does not wrap).
pub open spec fn cell_at(b: Seq<Seq<u8>>, i: int, j: int) -> int {
    if 0 <= i < b.len() && 0 <= j < b[0].len() && b[i][j] == 1 {
        1
    } else {
        0
    }
}

/// The number of live cells among the up-to-8 grid-adjacent positions
/// (the Moore neighbourhood) of (r, c).
pub open spec fn alive_neighbours(b: Seq<Seq<u8>>, r: int, c: int) -> int {
    cell_at(b, r - 1, c - 1) + cell_at(b, r - 1, c) + cell_at(b, r - 1, c + 1)
        + cell_at(b, r, c - 1) + cell_at(b, r, c + 1)
        + cell_at(b, r + 1, c - 1) + cell_at(b, r + 1, c) + cell_at(b, r + 1, c + 1)
}

/// The Game-of-Life transition for the cell at (r, c), read from the frozen
/// previous-generation board `b`: a live cell survives with 2 or 3 live
/// neighbours and dies otherwise; a dead cell is born with exactly 3.
pub open spec fn next_cell(b: Seq<Seq<u8>>, r: int, c: int) -> u8 {
    let n = alive_neighbours(b, r, c);
    if b[r][c] == 1 {
        if n == 2 || n == 3 {
            1u8
        } else {
            0u8
        }
    } else {
        if n == 3 {
            1u8
        } else {
            0u8
        }
    }
}

/// The next generation of a whole board: every cell is the transition of the
/// corresponding cell of the input board.
pub open spec fn evolved(b: Seq<Seq<u8>>) -> Seq<Seq<u8>> {
    Seq::new(b.len(), |i: int| Seq::new(b[0].len(), |j: int| next_cell(b, i, j)))
}

/// Counts the live cells among the up-to-8 neighbours of (row, column),
/// skipping positions that fall outside the board.
pub fn count_alive_neighbours(row: u64, column: u64, board: &Vec<Vec<u8>>) -> (n: u64)
    requires
        is_board(board.deep_view()),
        row < board.deep_view().len(),
        column < board.deep_view()[0].len(),
    ensures
        n == alive_neighbours(board.deep_view(), row as int, column as int),
        n <= 8,
{
    let ghost b = board.deep_view();
    let rows = board.len();
    let columns = board[0].len();
    proof {
        assert(rows == b.len());
        assert(board@[0]@ == b[0]);
        assert(columns == b[0].len());
    }
    let mut n: u64 = 0;
    if row >= 1 {
        if column >= 1 {
            n = n + cell_value(board, (row - 1) as usize, (column - 1) as usize) as u64;
        }
        n = n + cell_value(board, (row - 1) as usize, column as usize) as u64;
        if column + 1 < columns as u64 {
            n = n + cell_value(board, (row - 1) as usize, (column + 1) as usize) as u64;
        }
    }
    if column >= 1 {
        n = n + cell_value(board, row as usize, (column - 1) as usize) as u64;
    }
    if column + 1 < columns as u64 {
        n = n + cell_value(board, row as usize, (column + 1) as usize) as u64;
    }
    if row + 1 < rows as u64 {
        if column >= 1 {
            n = n + cell_value(board, (row + 1) as usize, (column - 1) as usize) as u64;
        }
        n = n + cell_value(board, (row + 1) as usize, column as usize) as u64;
        if column + 1 < columns as u64 {
            n = n + cell_value(board, (row + 1) as usize, (column + 1) as usize) as u64;
        }
    }
    n
}

/// Applies the Game-of-Life transition to the cell at (i, j), reading only
/// the frozen input board: a live cell survives with 2 or 3 live neighbours
/// and dies otherwise; a dead cell is born with exactly 3 live neighbours.
pub fn evolve_cell(i: u64, j: u64, board: &Vec<Vec<u8>>) -> (c: u8)
    requires
        is_board(board.deep_view()),
        i < board.deep_view().len(),
        j < board.deep_view()[0].len(),
    ensures
        c == next_cell(board.deep_view(), i as int, j as int),
        cell_ok(c),
{
    let ghost b = board.deep_view();
    let rows = board.len();
    let columns = board[0].len();
    proof {
        assert(rows == b.len());
        assert(board@[0]@ == b[0]);
        assert(columns == b[0].len());
        assert(i as usize as int == i as int);
        assert(j as usize as int == j as int);
    }
    let cell_alive = cell_value(board, i as usize, j as usize);
    let num_neighbours_alive = count_alive_neighbours(i, j, board);

    if cell_alive == 0 {
        match num_neighbours_alive {
            3 => 1,
            _ => 0,
        }
    } else {
        match num_neighbours_alive {
            2 | 3 => 1,
            _ => 0,
        }
    }
}

/// Produces the next generation as a wholly new board: every output cell is
/// the transition of the corresponding cell of the input board, so no cell's
/// update can be influenced by another cell's already-computed new value.
pub fn evolve_board(board: Vec<Vec<u8>>) -> (next: Vec<Vec<u8>>)
    requires
        is_board(board.deep_view()),
    ensures
        next.deep_view() == evolved(board.deep_view()),
        is_board(next.deep_view()),
{
    let ghost b = board.deep_view();
    let rows = board.len();
    let columns = board[0].len();
    proof {
        assert(board@[0]@ == b[0]);
    }
    let mut next: Vec<Vec<u8>> = Vec::new();
    let mut i: usize = 0;
    while i < rows
        invariant
            is_board(b),
            b == board.deep_view(),
            rows == b.len(),
            columns == b[0].len(),
            i <= rows,
            next.deep_view() == evolved(b).take(i as int),
        decreases rows - i,
    {
        let mut row: Vec<u8> = Vec::new();
        let mut j: usize = 0;
        while j < columns
            invariant
                is_board(b),
                b == board.deep_view(),
                rows == b.len(),
                columns == b[0].len(),
                i < rows,
                j <= columns,
                row@ == Seq::new(b[0].len(), |q: int| next_cell(b, i as int, q)).take(j as int),
            decreases columns - j,
        {
            let c = evolve_cell(i as u64, j as u64, &board);
            row.push(c);
            proof {
                assert(row@ =~= Seq::new(b[0].len(), |q: int| next_cell(b, i as int, q)).take(
                    j as int + 1,
                ));
            }
            j = j + 1;
        }
        let ghost prev = next.deep_view();
        let ghost rowv = row@;
        next.push(row);
        proof {
            assert(rowv =~= Seq::new(b[0].len(), |q: int| next_cell(b, i as int, q)));
            assert(next.deep_view().len() == prev.len() + 1);
            assert(prev.len() == i as int);
            assert_seqs_equal!(next.deep_view() == evolved(b).take(i as int + 1), k => {
                if k < prev.len() {
                    assert(next.deep_view()[k] == prev[k]);
                } else {
                    assert(next@[k]@ == rowv);
                    assert(next.deep_view()[k] =~= rowv);
                    assert(evolved(b)[k] =~= rowv);
                }
            });
        }
        i = i + 1;
    }
    proof {
        assert(next.deep_view() =~= evolved(b));
        assert forall|k: int| 0 <= k < evolved(b).len() implies #[trigger] evolved(b)[k].len()
            == evolved(b)[0].len() by {}
        assert(is_board(next.deep_view()));
    }
    next
}

/// Reads the cell at (i, j); a helper shared by the neighbour count and the
/// per-cell transition.
fn cell_value(board: &Vec<Vec<u8>>, i: usize, j: usize) -> (v: u8)
    requires
        is_board(board.deep_view()),
        i < board.deep_view().len(),
        j < board.deep_view()[0].len(),
    ensures
        v == board.deep_view()[i as int][j as int],
        cell_ok(v),
{
    proof {
        assert(board@[i as int]@ == board.deep_view()[i as int]);
    }
    board[i][j]
}

} // verus!
