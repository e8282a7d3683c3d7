use vstd::prelude::*;
use vstd::assert_seqs_equal;
use vstd::string::StringExecFns;
use crate::board::is_board;

verus! {

/// The text of one row: one glyph per cell, 'O' for a live cell and a space
/// for a dead one.
pub open spec fn row_text(row: Seq<u8>) -> Seq<char> {
    Seq::new(
        row.len(),
        |j: int|
            if row[j] == 1 {
                'O'
            } else {
                ' '
            },
    )
}

/// The text of a board: one line per row, no separators beyond the lines.
pub open spec fn board_text(b: Seq<Seq<u8>>) -> Seq<Seq<char>> {
    Seq::new(b.len(), |i: int| row_text(b[i]))
}

/// One colour channel of the image pixel (x, y): 255 when cell (y, x) is
/// alive, 0 when it is dead. The x/y swap against row/column is the fixed
/// convention of the frame layout.
pub open spec fn pixel_byte(b: Seq<Seq<u8>>, x: int, y: int) -> u8 {
    if b[y][x] == 1 {
        255u8
    } else {
        0u8
    }
}

/// The offset of the first colour byte of pixel (x, y) in a row-major RGB
/// buffer of width `n`.
pub open spec fn pixel_index(n: int, x: int, y: int) -> int {
    3 * (y * n + x)
}

/// The RGB buffer `pixels` is the square frame of board `b`: side length
/// equal to the row count, and all three channels of pixel (x, y) showing
/// cell (y, x).
pub open spec fn frame_ok(b: Seq<Seq<u8>>, pixels: Seq<u8>) -> bool {
    let n = b.len() as int;
    &&& pixels.len() == 3 * (n * n)
    &&& forall|x: int, y: int|
        #![trigger pixel_index(n, x, y)]
        0 <= x < n && 0 <= y < n ==> {
            &&& pixels[pixel_index(n, x, y)] == pixel_byte(b, x, y)
            &&& pixels[pixel_index(n, x, y) + 1] == pixel_byte(b, x, y)
            &&& pixels[pixel_index(n, x, y) + 2] == pixel_byte(b, x, y)
        }
}

/// Pixels written earlier in row-major order lie strictly below the offset
/// of the pixel written next.
proof fn lemma_pixel_index_mono(n: int, px: int, py: int, x: int, y: int)
    by (nonlinear_arith)
    requires
        0 <= px < n,
        0 <= py,
        0 <= x <= n,
        0 <= y,
        py < y || (py == y && px < x),
    ensures
        pixel_index(n, px, py) + 2 < pixel_index(n, x, y),
{
}

/// Renders one row of a board as text.
pub fn render_row(row: &Vec<u8>) -> (s: String)
    ensures
        s@ == row_text(row@),
{
    let mut s = String::new();
    let mut j: usize = 0;
    while j < row.len()
        invariant
            j <= row@.len(),
            s@ == row_text(row@).take(j as int),
        decreases row@.len() - j,
    {
        if row[j] == 1 {
            s.append("O");
        } else {
            s.append(" ");
        }
        proof {
            reveal_strlit("O");
            reveal_strlit(" ");
            assert(s@ =~= row_text(row@).take(j as int + 1));
        }
        j = j + 1;
    }
    proof {
        assert(row_text(row@).take(row@.len() as int) =~= row_text(row@));
    }
    s
}

/// Renders a board snapshot as text, one line per row; the text is a
/// function of the snapshot alone, so rendering the same snapshot twice
/// yields the same text.
pub fn render_board(board: &Vec<Vec<u8>>) -> (lines: Vec<String>)
    ensures
        lines.deep_view() == board_text(board.deep_view()),
{
    let mut lines: Vec<String> = Vec::new();
    let mut i: usize = 0;
    while i < board.len()
        invariant
            i <= board@.len(),
            lines.deep_view() == board_text(board.deep_view()).take(i as int),
        decreases board@.len() - i,
    {
        proof {
            assert(board@[i as int]@ == board.deep_view()[i as int]);
        }
        let ghost prev = lines.deep_view();
        let line = render_row(&board[i]);
        let ghost linev = line@;
        lines.push(line);
        proof {
            assert(lines.deep_view().len() == prev.len() + 1);
            assert(prev.len() == i as int);
            assert_seqs_equal!(lines.deep_view() == board_text(board.deep_view()).take(i as int + 1), k => {
                if k < prev.len() {
                    assert(lines.deep_view()[k] == prev[k]);
                } else {
                    assert(lines@[k]@ == linev);
                    assert(lines.deep_view()[k] == linev);
                }
            });
        }
        i = i + 1;
    }
    proof {
        let bt = board_text(board.deep_view());
        assert(bt.take(bt.len() as int) =~= bt);
    }
    lines
}

/// Builds the RGB pixel buffer of a board's square image frame: side length
/// equal to the row count, one pixel per cell, pixel (x, y) showing cell
/// (y, x), white for alive and black for dead. The buffer is a function of
/// the snapshot alone.
pub fn frame_pixels(board: &Vec<Vec<u8>>) -> (pixels: Vec<u8>)
    requires
        is_board(board.deep_view()),
        board.deep_view().len() <= board.deep_view()[0].len(),
    ensures
        frame_ok(board.deep_view(), pixels@),
{
    let ghost b = board.deep_view();
    let ghost side = b.len() as int;
    let n = board.len();
    let mut pixels: Vec<u8> = Vec::new();
    let mut y: usize = 0;
    while y < n
        invariant
            b == board.deep_view(),
            is_board(b),
            n == b.len(),
            b.len() <= b[0].len(),
            side == b.len() as int,
            y <= n,
            pixels@.len() == 3 * (y * n),
            forall|px: int, py: int|
                #![trigger pixel_index(side, px, py)]
                0 <= px < side && 0 <= py < y ==> {
                    &&& pixels@[pixel_index(side, px, py)] == pixel_byte(b, px, py)
                    &&& pixels@[pixel_index(side, px, py) + 1] == pixel_byte(b, px, py)
                    &&& pixels@[pixel_index(side, px, py) + 2] == pixel_byte(b, px, py)
                },
        decreases n - y,
    {
        let mut x: usize = 0;
        while x < n
            invariant
                b == board.deep_view(),
                is_board(b),
                n == b.len(),
                b.len() <= b[0].len(),
                side == b.len() as int,
                y < n,
                x <= n,
                pixels@.len() == 3 * (y * n + x),
                forall|px: int, py: int|
                    #![trigger pixel_index(side, px, py)]
                    0 <= px < side && 0 <= py < y ==> {
                        &&& pixels@[pixel_index(side, px, py)] == pixel_byte(b, px, py)
                        &&& pixels@[pixel_index(side, px, py) + 1] == pixel_byte(b, px, py)
                        &&& pixels@[pixel_index(side, px, py) + 2] == pixel_byte(b, px, py)
                    },
                forall|px: int|
                    #![trigger pixel_index(side, px, y as int)]
                    0 <= px < x ==> {
                        &&& pixels@[pixel_index(side, px, y as int)] == pixel_byte(b, px, y as int)
                        &&& pixels@[pixel_index(side, px, y as int) + 1] == pixel_byte(b, px, y as int)
                        &&& pixels@[pixel_index(side, px, y as int) + 2] == pixel_byte(b, px, y as int)
                    },
            decreases n - x,
        {
            proof {
                assert(board@[y as int]@ == b[y as int]);
            }
            let v: u8 = if board[y][x] == 1 {
                255
            } else {
                0
            };
            let ghost oldlen = pixels@.len() as int;
            pixels.push(v);
            pixels.push(v);
            pixels.push(v);
            proof {
                assert(v == pixel_byte(b, x as int, y as int));
                assert(oldlen == pixel_index(side, x as int, y as int));
                assert(pixels@[oldlen] == v);
                assert(pixels@[oldlen + 1] == v);
                assert(pixels@[oldlen + 2] == v);
                assert forall|px: int, py: int|
                    #![trigger pixel_index(side, px, py)]
                    0 <= px < side && 0 <= py < y implies {
                    &&& pixels@[pixel_index(side, px, py)] == pixel_byte(b, px, py)
                    &&& pixels@[pixel_index(side, px, py) + 1] == pixel_byte(b, px, py)
                    &&& pixels@[pixel_index(side, px, py) + 2] == pixel_byte(b, px, py)
                } by {
                    lemma_pixel_index_mono(side, px, py, x as int, y as int);
                }
                assert forall|px: int|
                    #![trigger pixel_index(side, px, y as int)]
                    0 <= px < x + 1 implies {
                    &&& pixels@[pixel_index(side, px, y as int)] == pixel_byte(b, px, y as int)
                    &&& pixels@[pixel_index(side, px, y as int) + 1] == pixel_byte(b, px, y as int)
                    &&& pixels@[pixel_index(side, px, y as int) + 2] == pixel_byte(b, px, y as int)
                } by {
                    if px < x {
                        lemma_pixel_index_mono(side, px, y as int, x as int, y as int);
                    }
                }
            }
            x = x + 1;
        }
        proof {
            assert(3 * (y * n + n) == 3 * ((y + 1) * n)) by (nonlinear_arith);
        }
        y = y + 1;
    }
    pixels
}

/// Declares gif's `Frame` so that finished frames can be handed to an
/// encoder; the frame's content stays opaque to the verifier.
#[verifier::external_type_specification]
#[verifier::external_body]
pub struct ExFrame<'a>(gif::Frame<'a>);

/// Relies on gif's `Frame::from_rgb`: builds a GIF frame of the given
/// dimensions from an RGB byte buffer. It panics unless the buffer holds
/// exactly width * height pixels of three bytes each, which `requires`
/// guarantees.
#[verifier::external_body]
fn frame_from_rgb(width: u16, height: u16, pixels: &Vec<u8>) -> gif::Frame<'static>
    requires
        pixels@.len() == 3 * ((width as int) * (height as int)),
{
    gif::Frame::from_rgb(width, height, pixels.as_slice())
}

/// Builds the image frame of a board snapshot: a square frame whose side is
/// the board's row count, built from the pixel buffer that `frame_pixels`
/// fixes cell by cell.
pub fn create_frame(board: &Vec<Vec<u8>>) -> gif::Frame<'static>
    requires
        is_board(board.deep_view()),
        board.deep_view().len() <= 0xffff,
        board.deep_view().len() <= board.deep_view()[0].len(),
{
    let n = board.len();
    let pixels = frame_pixels(board);
    proof {
        assert(pixels@.len() == 3 * ((n as u16 as int) * (n as u16 as int)));
    }
    frame_from_rgb(n as u16, n as u16, &pixels)
}

} // verus!
