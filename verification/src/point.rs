//! Stone colour, point state, move kind and the error taxonomy.

use vstd::prelude::*;

verus! {

/// The two stone colours.
#[derive(PartialEq, Eq, Clone, Copy, Debug, Structural)]
pub enum Color {
    Black,
    White,
}

/// The state of one cell of the padded board array.
#[derive(PartialEq, Eq, Clone, Copy, Debug, Structural)]
pub enum PointState {
    /// An empty on-board point.
    Empty,
    /// A stone of the given colour.
    Occupied(Color),
    /// The out-of-bounds halo; never a legal target.
    Out,
    /// Reserved for rules layers; the move engine never writes it.
    Forbidden,
}

/// A move: pass, resign, or a stone on the point with the given linear
/// coordinate.
#[derive(PartialEq, Eq, Clone, Copy, Debug, Structural)]
pub enum Move {
    Pass,
    Resign,
    Linear(usize),
}

/// Every failure the engine or the codecs report to a caller.
#[derive(PartialEq, Eq, Clone, Copy, Debug, Structural)]
pub enum BoardError {
    /// The move retakes the ko point.
    KoForbidden,
    /// The move would leave its own string without a liberty.
    Suicide,
    /// `play` does not execute resignations.
    ResignNotPlayable,
    /// A malformed algebraic coordinate.
    InvalidVertex,
    /// A board text with the wrong number of rows.
    WrongRows,
    /// A board text row with the wrong number of columns.
    WrongColumns,
}

impl Color {
    /// The other colour; an involution.
    pub open spec fn spec_opponent(self) -> Color {
        match self {
            Color::Black => Color::White,
            Color::White => Color::Black,
        }
    }

    /// Returns the other colour.
    pub fn opponent(&self) -> (r: Self)
        ensures
            r == self.spec_opponent(),
    {
        match *self {
            Color::Black => Color::White,
            Color::White => Color::Black,
        }
    }
}

impl PointState {
    /// What `opponent` returns: the stone of the other colour for a stone,
    /// and the `Forbidden` sentinel for every non-stone input.
    pub open spec fn spec_opponent(self) -> PointState {
        match self {
            PointState::Occupied(c) => PointState::Occupied(c.spec_opponent()),
            _ => PointState::Forbidden,
        }
    }

    /// Returns the state with the colour reversed; `Forbidden` marks an input
    /// for which the question is not meaningful.
    pub fn opponent(&self) -> (r: Self)
        ensures
            r == self.spec_opponent(),
    {
        match *self {
            PointState::Occupied(c) => PointState::Occupied(c.opponent()),
            _ => PointState::Forbidden,
        }
    }

    /// Whether the state is a stone of either colour.
    pub open spec fn spec_is_stone(self) -> bool {
        self matches PointState::Occupied(_)
    }

    /// Returns whether the state is a stone.
    pub fn is_stone(&self) -> (r: bool)
        ensures
            r == self.spec_is_stone(),
    {
        if let PointState::Occupied(_) = *self {
            true
        } else {
            false
        }
    }

    /// The state a board-text character denotes: `X` black, `O` white,
    /// `#` out of bounds, anything else an empty point.
    pub open spec fn spec_from_char(c: char) -> PointState {
        if c == 'X' {
            PointState::Occupied(Color::Black)
        } else if c == 'O' {
            PointState::Occupied(Color::White)
        } else if c == '#' {
            PointState::Out
        } else {
            PointState::Empty
        }
    }

    /// Returns the state a board-text character denotes.
    pub fn from_char(c: char) -> (r: PointState)
        ensures
            r == PointState::spec_from_char(c),
    {
        match c {
            'X' => PointState::Occupied(Color::Black),
            'O' => PointState::Occupied(Color::White),
            '#' => PointState::Out,
            _ => PointState::Empty,
        }
    }

    /// The character that renders the state: the inverse direction of
    /// `spec_from_char` on the three printable states.
    pub open spec fn spec_to_char(self) -> char {
        match self {
            PointState::Empty | PointState::Forbidden => '.',
            PointState::Occupied(Color::Black) => 'X',
            PointState::Occupied(Color::White) => 'O',
            PointState::Out => '#',
        }
    }

    /// Returns the character that renders the state.
    pub fn to_char(&self) -> (r: char)
        ensures
            r == self.spec_to_char(),
    {
        match *self {
            PointState::Empty | PointState::Forbidden => '.',
            PointState::Occupied(Color::Black) => 'X',
            PointState::Occupied(Color::White) => 'O',
            PointState::Out => '#',
        }
    }
}

/// `opponent` on colours is an involution.
pub proof fn lemma_opponent_involution(c: Color)
    ensures
        c.spec_opponent().spec_opponent() == c,
{
}

} // verus!
