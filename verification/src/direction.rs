//! The four slide directions, their geometry and their textual codes.

use vstd::prelude::*;
use vstd::string::StrSliceExecFns;

verus! {

/// A direction in which the empty slot can slide by one cell.
///
/// Each direction carries a fixed single-character code used in move
/// sequences: `"c"` for `Up`, `"b"` for `Down`, `"e"` for `Left` and
/// `"d"` for `Right`.
#[derive(Clone, Copy, Debug, PartialEq, Eq, Hash, Structural)]
pub enum Direction {
    Up,
    Left,
    Down,
    Right,
}

impl Direction {
    /// The direction that undoes this one.
    pub open spec fn spec_opposite(self) -> Direction {
        match self {
            Direction::Up => Direction::Down,
            Direction::Down => Direction::Up,
            Direction::Left => Direction::Right,
            Direction::Right => Direction::Left,
        }
    }

    /// Returns the direction that undoes this one.
    pub fn opposite(self) -> (r: Direction)
        ensures
            r == self.spec_opposite(),
    {
        match self {
            Direction::Up => Direction::Down,
            Direction::Down => Direction::Up,
            Direction::Left => Direction::Right,
            Direction::Right => Direction::Left,
        }
    }

    /// How one slide in this direction changes the row of the empty slot.
    pub open spec fn spec_row_delta(self) -> int {
        match self {
            Direction::Up => -1,
            Direction::Down => 1,
            Direction::Left => 0,
            Direction::Right => 0,
        }
    }

    /// How one slide in this direction changes the column of the empty slot.
    pub open spec fn spec_col_delta(self) -> int {
        match self {
            Direction::Up => 0,
            Direction::Down => 0,
            Direction::Left => -1,
            Direction::Right => 1,
        }
    }

    /// Returns the (row, column) offset of one slide in this direction.
    pub fn position_tuple(self) -> (r: (isize, isize))
        ensures
            r.0 as int == self.spec_row_delta(),
            r.1 as int == self.spec_col_delta(),
    {
        match self {
            Direction::Up => (-1, 0),
            Direction::Down => (1, 0),
            Direction::Left => (0, -1),
            Direction::Right => (0, 1),
        }
    }

    /// The single-character textual code of this direction.
    pub open spec fn spec_code(self) -> Seq<char> {
        match self {
            Direction::Up => seq!['c'],
            Direction::Down => seq!['b'],
            Direction::Left => seq!['e'],
            Direction::Right => seq!['d'],
        }
    }

    /// Returns the textual code of this direction.
    pub fn code(self) -> (r: &'static str)
        ensures
            r@ == self.spec_code(),
    {
        proof {
            reveal_strlit("c");
            reveal_strlit("b");
            reveal_strlit("e");
            reveal_strlit("d");
        }
        let r = match self {
            Direction::Up => "c",
            Direction::Down => "b",
            Direction::Left => "e",
            Direction::Right => "d",
        };
        proof {
            assert(r@ =~= self.spec_code());
        }
        r
    }

    /// Which direction, if any, a move token denotes.
    pub open spec fn spec_parse(s: Seq<char>) -> Option<Direction> {
        if s.len() == 1 {
            if s[0] == 'c' {
                Some(Direction::Up)
            } else if s[0] == 'b' {
                Some(Direction::Down)
            } else if s[0] == 'e' {
                Some(Direction::Left)
            } else if s[0] == 'd' {
                Some(Direction::Right)
            } else {
                None
            }
        } else {
            None
        }
    }

    /// Parses a move token into a direction; unknown tokens yield `None`.
    pub fn parse(token: &str) -> (r: Option<Direction>)
        ensures
            r == Direction::spec_parse(token@),
    {
        if token.unicode_len() == 1 {
            let c = token.get_char(0);
            if c == 'c' {
                Some(Direction::Up)
            } else if c == 'b' {
                Some(Direction::Down)
            } else if c == 'e' {
                Some(Direction::Left)
            } else if c == 'd' {
                Some(Direction::Right)
            } else {
                None
            }
        } else {
            None
        }
    }

    /// The fixed order in which moves are probed: up, down, left, right.
    pub open spec fn spec_order() -> Seq<Direction> {
        seq![Direction::Up, Direction::Down, Direction::Left, Direction::Right]
    }

    /// Returns the four directions in the fixed probe order.
    pub fn iter() -> (r: Vec<Direction>)
        ensures
            r@ == Direction::spec_order(),
    {
        let mut r: Vec<Direction> = Vec::new();
        r.push(Direction::Up);
        r.push(Direction::Down);
        r.push(Direction::Left);
        r.push(Direction::Right);
        proof {
            assert(r@ =~= Direction::spec_order());
        }
        r
    }
}

/// Undoing is an involution: the opposite of the opposite of a direction
/// is the direction itself.
pub proof fn lemma_opposite_involution(d: Direction)
    ensures
        d.spec_opposite().spec_opposite() == d,
{
}

/// A direction's code always parses back to that direction.
pub proof fn lemma_code_round_trip(d: Direction)
    ensures
        Direction::spec_parse(d.spec_code()) == Some(d),
{
}

} // verus!
