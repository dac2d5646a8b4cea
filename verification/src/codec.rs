//! The algebraic coordinate codec: "A1"-style coordinates with the letter I
//! skipped and row 1 at the bottom of the displayed board.

use vstd::prelude::*;

use crate::board::{interior, lin, xof, yof, Position19};
use crate::point::{BoardError, Move};

verus! {

/// Relies on `String::push`: appends one character at the end.
pub assume_specification [ String::push ](s: &mut String, c: char)
    ensures
        final(s)@ == old(s)@.push(c),
;

/// The character code of `c` with an ASCII lower-case letter raised to
/// upper case.
pub open spec fn upcode(c: char) -> int {
    if 97 <= c as int <= 122 {
        c as int - 32
    } else {
        c as int
    }
}

/// Whether `c` is an ASCII decimal digit.
pub open spec fn is_digit(c: char) -> bool {
    48 <= c as int <= 57
}

/// The value of an ASCII decimal digit.
pub open spec fn digit_val(c: char) -> int {
    c as int - 48
}

/// The column a letter denotes: A..H are columns 1..8 and J..T are columns
/// 9..19, case-insensitively; I and everything else denote no column.
pub open spec fn spec_col_of(c: char) -> Option<int> {
    let u = upcode(c);
    if 65 <= u <= 72 {
        Some(u - 64)
    } else if 74 <= u <= 84 {
        Some(u - 65)
    } else {
        None
    }
}

/// Whether `s` is the token "pass" in any capitalisation.
pub open spec fn spec_is_pass(s: Seq<char>) -> bool {
    s.len() == 4 && upcode(s[0]) == 80 && upcode(s[1]) == 65 && upcode(s[2]) == 83 && upcode(
        s[3],
    ) == 83
}

/// The value of a one- or two-digit decimal row string.
pub open spec fn spec_row_val(s: Seq<char>) -> Option<int> {
    if s.len() == 1 && is_digit(s[0]) {
        Some(digit_val(s[0]))
    } else if s.len() == 2 && is_digit(s[0]) && is_digit(s[1]) {
        Some(10 * digit_val(s[0]) + digit_val(s[1]))
    } else {
        None
    }
}

/// What `algebraic_to_move` accepts: the token "pass", or a column letter
/// followed by a row number between 1 and 19, where displayed row `n` is
/// internal row `20 - n`.
pub open spec fn spec_parse_move(s: Seq<char>) -> Option<Move> {
    if spec_is_pass(s) {
        Some(Move::Pass)
    } else if s.len() >= 2 {
        match spec_col_of(s[0]) {
            Some(x) => match spec_row_val(s.subrange(1, s.len() as int)) {
                Some(n) => if 1 <= n <= 19 {
                    Some(Move::Linear(lin(x, 20 - n) as usize))
                } else {
                    None
                },
                None => None,
            },
            None => None,
        }
    } else {
        None
    }
}

/// The letter of column `x`: A..H for 1..8, J..T for 9..19 (I is skipped).
pub open spec fn col_letter(x: int) -> char {
    if x <= 8 {
        ((64 + x) as u8) as char
    } else {
        ((65 + x) as u8) as char
    }
}

/// What `str_coord` renders for a move: "pass", "resign", or the column
/// letter followed by the displayed row number `20 - y`.
pub open spec fn spec_str_coord(mov: Move) -> Seq<char> {
    match mov {
        Move::Pass => seq!['p', 'a', 's', 's'],
        Move::Resign => seq!['r', 'e', 's', 'i', 'g', 'n'],
        Move::Linear(i) => {
            let x = xof(i as int);
            let n = 20 - yof(i as int);
            if n >= 10 {
                seq![col_letter(x), '1', ((48 + (n - 10)) as u8) as char]
            } else {
                seq![col_letter(x), ((48 + n) as u8) as char]
            }
        },
    }
}

/// The upper-cased character code, for parsing.
fn upchar(c: char) -> (r: u32)
    ensures
        r as int == upcode(c),
{
    let v = c as u32;
    if 97 <= v && v <= 122 {
        v - 32
    } else {
        v
    }
}

impl Position19 {
    /// Renders a move in algebraic form: "pass", "resign", or letter and
    /// displayed row, as in "Q16".
    pub fn str_coord(&self, mov: Move) -> (r: String)
        requires
            mov matches Move::Linear(i) ==> interior(i as int),
        ensures
            r@ == spec_str_coord(mov),
    {
        match mov {
            Move::Pass => {
                let mut r = String::new();
                r.push('p');
                r.push('a');
                r.push('s');
                r.push('s');
                proof {
                    assert(r@ =~= spec_str_coord(mov));
                }
                r
            },
            Move::Resign => {
                let mut r = String::new();
                r.push('r');
                r.push('e');
                r.push('s');
                r.push('i');
                r.push('g');
                r.push('n');
                proof {
                    assert(r@ =~= spec_str_coord(mov));
                }
                r
            },
            Move::Linear(i) => {
                let (x, y) = self.linear_to_xy(i);
                let mut cu: u8 = 64 + x;
                if cu > 72 {
                    cu = cu + 1;
                }
                let n: u8 = 20 - y;
                let mut r = String::new();
                r.push(cu as char);
                if n >= 10 {
                    r.push('1');
                    r.push((48 + (n - 10)) as char);
                } else {
                    r.push((48 + n) as char);
                }
                proof {
                    assert(cu as char == col_letter(xof(i as int)));
                    assert(r@ =~= spec_str_coord(mov));
                }
                r
            },
        }
    }

    /// Parses a case-insensitive algebraic coordinate: "pass" gives a pass,
    /// a column letter with a displayed row number gives the stone's linear
    /// coordinate, and anything else fails with `InvalidVertex`. The letter
    /// I and rows outside 1..=19 count as malformed and answer
    /// `InvalidVertex` rather than wrapping into off-board arithmetic: a
    /// verified function never panics, and the board range is the only
    /// range the row arithmetic permits.
    pub fn algebraic_to_move(&self, s: &str) -> (r: Result<Move, BoardError>)
        ensures
            r == (match spec_parse_move(s@) {
                Some(m) => Ok::<Move, BoardError>(m),
                None => Err::<Move, BoardError>(BoardError::InvalidVertex),
            }),
    {
        let len = s.unicode_len();
        if len == 4 {
            let c0 = s.get_char(0);
            let c1 = s.get_char(1);
            let c2 = s.get_char(2);
            let c3 = s.get_char(3);
            if upchar(c0) == 80 && upchar(c1) == 65 && upchar(c2) == 83 && upchar(c3) == 83 {
                return Ok(Move::Pass);
            }
        }
        if len < 2 || len > 3 {
            return Err(BoardError::InvalidVertex);
        }
        let c0 = s.get_char(0);
        let u = upchar(c0);
        let x: u32 = if 65 <= u && u <= 72 {
            u - 64
        } else if 74 <= u && u <= 84 {
            u - 65
        } else {
            return Err(BoardError::InvalidVertex);
        };
        let d1 = s.get_char(1);
        let v1 = d1 as u32;
        if !(48 <= v1 && v1 <= 57) {
            return Err(BoardError::InvalidVertex);
        }
        let n: u32 = if len == 3 {
            let d2 = s.get_char(2);
            let v2 = d2 as u32;
            if !(48 <= v2 && v2 <= 57) {
                return Err(BoardError::InvalidVertex);
            }
            10 * (v1 - 48) + (v2 - 48)
        } else {
            v1 - 48
        };
        proof {
            let rest = s@.subrange(1, s@.len() as int);
            if len == 3 {
                assert(rest.len() == 2 && rest[0] == s@[1] && rest[1] == s@[2]);
            } else {
                assert(rest.len() == 1 && rest[0] == s@[1]);
            }
            assert(spec_row_val(rest) == Some(n as int));
        }
        if n < 1 || n > 19 {
            return Err(BoardError::InvalidVertex);
        }
        let y: u32 = 20 - n;
        Ok(Move::Linear((x + 21 * y) as usize))
    }
}

/// Rendering a move and parsing it back gives the move again, for every
/// on-board point.
pub proof fn lemma_coordinate_round_trip(pt: usize)
    requires
        interior(pt as int),
    ensures
        spec_parse_move(spec_str_coord(Move::Linear(pt))) == Some(Move::Linear(pt)),
{
    let x = xof(pt as int);
    let y = yof(pt as int);
    let n = 20 - y;
    let s = spec_str_coord(Move::Linear(pt));
    assert(1 <= x <= 19 && 1 <= y <= 19);
    assert(col_letter(x) as int == (if x <= 8 {
        64 + x
    } else {
        65 + x
    }));
    assert(upcode(s[0]) == (if x <= 8 {
        64 + x
    } else {
        65 + x
    }));
    assert(!spec_is_pass(s));
    assert(spec_col_of(s[0]) == Some(x));
    let rest = s.subrange(1, s.len() as int);
    if n >= 10 {
        assert(s.len() == 3);
        assert(rest.len() == 2 && rest[0] == s[1] && rest[1] == s[2]);
        assert(rest[0] == '1' && rest[1] == ((48 + (n - 10)) as u8) as char);
        assert(digit_val(rest[0]) == 1 && digit_val(rest[1]) == n - 10);
        assert(spec_row_val(rest) == Some(n));
    } else {
        assert(s.len() == 2);
        assert(rest.len() == 1 && rest[0] == s[1]);
        assert(digit_val(rest[0]) == n);
        assert(spec_row_val(rest) == Some(n));
    }
    assert(20 - n == y);
    crate::board::lemma_coordinate_inverses(x, y, pt as int);
    assert(lin(x, y) == pt as int);
}

} // verus!
