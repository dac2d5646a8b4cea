//! Board text: the deserialising constructor and the human-readable
//! renderer.

use vstd::prelude::*;

use crate::board::{init_board, interior, lin, xof, yof, Position19};
use crate::codec::col_letter;
use crate::point::{BoardError, Color, PointState};

verus! {

/// The index of the first line feed at or after `i`, or the string's length
/// when the rest has none.
pub open spec fn line_end(s: Seq<char>, i: int) -> int
    decreases s.len() - i,
{
    if i >= s.len() {
        s.len() as int
    } else if s[i] == '\n' {
        i
    } else {
        line_end(s, i + 1)
    }
}

/// A line's end never lies before its start, nor past the text's end.
pub proof fn lemma_line_end_bounds(s: Seq<char>, i: int)
    ensures
        line_end(s, i) >= i || line_end(s, i) == s.len(),
        i < s.len() ==> i <= line_end(s, i) <= s.len(),
    decreases s.len() - i,
{
    if i < s.len() && s[i] != '\n' {
        lemma_line_end_bounds(s, i + 1);
    }
}

/// How many lines start at or after `start`; a line starts wherever a
/// character remains, and a trailing line feed opens no further line.
pub open spec fn row_count_from(s: Seq<char>, start: int) -> int
    decreases s.len() - start + 1,
    via row_count_from_decreases
{
    if start >= s.len() {
        0
    } else {
        1 + row_count_from(s, line_end(s, start) + 1)
    }
}

#[via_fn]
proof fn row_count_from_decreases(s: Seq<char>, start: int) {
    lemma_line_end_bounds(s, start);
}

/// Where row `r` starts in the text.
pub open spec fn row_start(s: Seq<char>, r: int) -> int
    decreases r,
{
    if r <= 0 {
        0
    } else {
        line_end(s, row_start(s, r - 1)) + 1
    }
}

/// Whether the text has exactly 19 lines of 19 characters each.
pub open spec fn text_shape_ok(s: Seq<char>) -> bool {
    &&& row_count_from(s, 0) == 19
    &&& forall|r: int|
        0 <= r < 19 ==> line_end(s, #[trigger] row_start(s, r)) - row_start(s, r) == 19
}

/// The board a well-shaped text denotes: cell (x, y) is read from column
/// x of line y, through the character mapping of `PointState`.
pub open spec fn text_board(s: Seq<char>) -> Seq<PointState> {
    Seq::new(
        441,
        |q: int|
            if interior(q) {
                PointState::spec_from_char(s[row_start(s, yof(q) - 1) + (xof(q) - 1)])
            } else {
                PointState::Out
            },
    )
}

impl Position19 {
    /// Builds a position from 19 text lines of 19 characters, `X` a black
    /// stone, `O` a white stone and anything else an empty point; the turn
    /// is Black's, there is no ko and the komi is the default. Fails with
    /// `WrongRows` on any other number of lines and with `WrongColumns` on
    /// any other line width.
    pub fn from_string(s: &str) -> (r: Result<Position19, BoardError>)
        requires
            s@.len() < usize::MAX,
        ensures
            match r {
                Ok(p) => {
                    &&& text_shape_ok(s@)
                    &&& p.wf()
                    &&& p.board() == text_board(s@)
                    &&& p.spec_turn() == Color::Black
                    &&& p.spec_ko() == None::<usize>
                    &&& p.spec_komi() == 13
                },
                Err(e) => {
                    &&& !text_shape_ok(s@)
                    &&& (e == BoardError::WrongRows <==> row_count_from(s@, 0) != 19)
                    &&& (e == BoardError::WrongRows || e == BoardError::WrongColumns)
                },
            },
    {
        let len = s.unicode_len();
        let mut count: usize = 0;
        let mut start: usize = 0;
        while start < len
            invariant
                len == s@.len(),
                len < usize::MAX,
                start <= len + 1,
                count <= start,
                row_count_from(s@, 0) == count + row_count_from(s@, start as int),
            decreases len + 1 - start,
        {
            let e = Position19::scan_line_end(s, start);
            proof {
                assert(row_count_from(s@, start as int) == 1 + row_count_from(s@, e as int + 1));
            }
            start = e + 1;
            count = count + 1;
        }
        proof {
            assert(row_count_from(s@, start as int) == 0);
        }
        if count != 19 {
            return Err(BoardError::WrongRows);
        }
        let mut pos = Position19::new();
        let mut row: usize = 0;
        let mut rs: usize = 0;
        while row < 19
            invariant
                pos.wf(),
                pos.spec_turn() == Color::Black,
                pos.spec_ko() == None::<usize>,
                pos.spec_komi() == 13,
                len == s@.len(),
                len < usize::MAX,
                row <= 19,
                rs as int == row_start(s@, row as int),
                rs <= len + 1,
                row_count_from(s@, 0) == 19,
                row_count_from(s@, rs as int) == 19 - row,
                forall|r: int|
                    0 <= r < row ==> line_end(s@, #[trigger] row_start(s@, r)) - row_start(s@, r)
                        == 19,
                forall|q: int|
                    0 <= q < 441 ==> pos.board()[q] == (if interior(q) && yof(q) <= row {
                        PointState::spec_from_char(s@[row_start(s@, yof(q) - 1) + (xof(q) - 1)])
                    } else {
                        init_board()[q]
                    }),
            decreases 19 - row,
        {
            proof {
                assert(rs < len) by {
                    if rs as int >= s@.len() {
                        assert(row_count_from(s@, rs as int) == 0);
                    }
                }
            }
            let e = Position19::scan_line_end(s, rs);
            if e - rs != 19 {
                return Err(BoardError::WrongColumns);
            }
            let mut x: usize = 1;
            while x <= 19
                invariant
                    pos.wf(),
                    pos.spec_turn() == Color::Black,
                    pos.spec_ko() == None::<usize>,
                    pos.spec_komi() == 13,
                    len == s@.len(),
                    row < 19,
                    1 <= x <= 20,
                    rs as int == row_start(s@, row as int),
                    e as int == line_end(s@, rs as int),
                    e - rs == 19,
                    e <= len,
                    forall|q: int|
                        0 <= q < 441 ==> pos.board()[q] == (if interior(q) && (yof(q) <= row || (
                        yof(q) == row + 1 && xof(q) < x)) {
                            PointState::spec_from_char(
                                s@[row_start(s@, yof(q) - 1) + (xof(q) - 1)],
                            )
                        } else {
                            init_board()[q]
                        }),
                decreases 20 - x,
            {
                let c = s.get_char(rs + x - 1);
                let pt = x + 21 * (row + 1);
                proof {
                    assert(lin(x as int, row + 1) % 21 == x as int && lin(x as int, row + 1) / 21
                        == row + 1) by (nonlinear_arith)
                        requires
                            1 <= x <= 19,
                            0 <= row < 19,
                    ;
                    assert(interior(pt as int) && xof(pt as int) == x && yof(pt as int) == row
                        + 1);
                }
                pos.set_state(pt, PointState::from_char(c));
                x = x + 1;
            }
            row = row + 1;
            rs = e + 1;
            proof {
                assert(row_count_from(s@, line_end(s@, row_start(s@, row - 1)) as int + 1) == 19
                    - row);
            }
        }
        proof {
            assert(text_shape_ok(s@));
            assert(pos.board() =~= text_board(s@));
        }
        Ok(pos)
    }

    /// The index of the first line feed at or after `start`, or the
    /// string's length.
    fn scan_line_end(s: &str, start: usize) -> (e: usize)
        requires
            start <= s@.len(),
        ensures
            e as int == line_end(s@, start as int),
            start <= e <= s@.len(),
    {
        let len = s.unicode_len();
        let mut j = start;
        while j < len
            invariant
                len == s@.len(),
                start <= j <= len,
                line_end(s@, start as int) == line_end(s@, j as int),
            decreases len - j,
        {
            let c = s.get_char(j);
            if c == '\n' {
                return j;
            }
            j = j + 1;
        }
        j
    }
}

/// The cells of display row `y` from column `x` on, each followed by one
/// space, closed by a line feed.
pub open spec fn row_cells(b: Seq<PointState>, y: int, x: int) -> Seq<char>
    decreases 20 - x,
{
    if x > 19 {
        seq!['\n']
    } else {
        seq![b[lin(x, y)].spec_to_char(), ' '] + row_cells(b, y, x + 1)
    }
}

/// The left margin of a row: its display number `20 - y`, left-aligned in
/// two columns between single spaces.
pub open spec fn row_label(y: int) -> Seq<char> {
    let n = 20 - y;
    if n >= 10 {
        seq![' ', '1', ((48 + (n - 10)) as u8) as char, ' ']
    } else {
        seq![' ', ((48 + n) as u8) as char, ' ', ' ']
    }
}

/// The column letters of the footer from column `x` on, each followed by
/// one space, closed by a blank line.
pub open spec fn footer_cols(x: int) -> Seq<char>
    decreases 20 - x,
{
    if x > 19 {
        seq!['\n', '\n']
    } else {
        seq![col_letter(x), ' '] + footer_cols(x + 1)
    }
}

/// The rows of the rendering from internal row `y` down, then the footer.
pub open spec fn rows_from(b: Seq<PointState>, y: int) -> Seq<char>
    decreases 20 - y,
{
    if y > 19 {
        seq![' ', ' ', ' ', ' '] + footer_cols(1)
    } else {
        row_label(y) + row_cells(b, y, 1) + rows_from(b, y + 1)
    }
}

/// The whole rendering: one line per board row with its display number on
/// the left (19 at the top, 1 at the bottom, matching the algebraic
/// codec), then the column letters A..T with I skipped.
pub open spec fn spec_render(b: Seq<PointState>) -> Seq<char> {
    rows_from(b, 1)
}

impl Position19 {
    /// Renders the board as text: `X` black, `O` white, `.` empty, `#` out
    /// of bounds.
    pub fn to_board_string(&self) -> (r: String)
        requires
            self.wf(),
        ensures
            r@ == spec_render(self.board()),
    {
        let ghost b = self.board();
        let mut r = String::new();
        let mut y: usize = 1;
        while y <= 19
            invariant
                self.wf(),
                b == self.board(),
                1 <= y <= 20,
                r@ + rows_from(b, y as int) == spec_render(b),
            decreases 20 - y,
        {
            let n: usize = 20 - y;
            r.push(' ');
            if n >= 10 {
                r.push('1');
                r.push((48 + (n as u8 - 10)) as char);
                r.push(' ');
            } else {
                r.push((48 + n as u8) as char);
                r.push(' ');
                r.push(' ');
            }
            proof {
                assert(rows_from(b, y as int) == row_label(y as int) + row_cells(b, y as int, 1)
                    + rows_from(b, y as int + 1));
            }
            let mut x: usize = 1;
            while x <= 19
                invariant
                    self.wf(),
                    b == self.board(),
                    1 <= y <= 19,
                    1 <= x <= 20,
                    r@ + row_cells(b, y as int, x as int) + rows_from(b, y as int + 1)
                        == spec_render(b),
                decreases 20 - x,
            {
                let pt = x + 21 * y;
                proof {
                    assert(pt as int == lin(x as int, y as int));
                    assert(pt < 441);
                    assert(row_cells(b, y as int, x as int) == seq![
                        b[lin(x as int, y as int)].spec_to_char(),
                        ' ',
                    ] + row_cells(b, y as int, x as int + 1));
                }
                let c = self.state(pt);
                r.push(c.to_char());
                r.push(' ');
                proof {
                    assert(r@ + row_cells(b, y as int, x as int + 1) + rows_from(b, y as int + 1)
                        =~= spec_render(b));
                }
                x = x + 1;
            }
            r.push('\n');
            proof {
                assert(r@ + rows_from(b, y as int + 1) =~= spec_render(b));
            }
            y = y + 1;
        }
        r.push(' ');
        r.push(' ');
        r.push(' ');
        r.push(' ');
        proof {
            assert(rows_from(b, 20) == seq![' ', ' ', ' ', ' '] + footer_cols(1));
        }
        let mut x: usize = 1;
        while x <= 19
            invariant
                1 <= x <= 20,
                r@ + footer_cols(x as int) == spec_render(b),
            decreases 20 - x,
        {
            proof {
                assert(footer_cols(x as int) == seq![col_letter(x as int), ' '] + footer_cols(
                    x as int + 1,
                ));
            }
            let mut cu: u8 = 64 + x as u8;
            if cu > 72 {
                cu = cu + 1;
            }
            r.push(cu as char);
            r.push(' ');
            proof {
                assert(cu as char == col_letter(x as int));
                assert(r@ + footer_cols(x as int + 1) =~= spec_render(b));
            }
            x = x + 1;
        }
        r.push('\n');
        r.push('\n');
        proof {
            assert(r@ =~= spec_render(b));
        }
        r
    }
}

} // verus!
