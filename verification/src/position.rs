use vstd::prelude::*;

verus! {

/// A position inside a buffer: either before the first byte, or at a byte index.
#[derive(Debug, Clone, Copy, PartialEq, Eq, Hash)]
pub struct Position {
    idx: Option<usize>,
}

impl View for Position {
    type V = int;

    /// The position as an integer coordinate; the null position is `-1`.
    closed spec fn view(&self) -> int {
        match self.idx {
            Option::None => -1,
            Option::Some(i) => i as int,
        }
    }
}

impl Position {
    /// The position with coordinate `x`: null for `-1`, else the position at
    /// byte index `x`.
    pub closed spec fn from_int(x: int) -> Position {
        if x == -1 {
            Position { idx: None }
        } else {
            Position { idx: Some(x as usize) }
        }
    }

    /// The distinguished position before the first byte of a buffer.
    pub fn null() -> (r: Self)
        ensures
            r@ == -1,
            r == Position::from_int(-1),
    {
        Position { idx: None }
    }

    /// The position at byte index `idx`.
    pub fn at(idx: usize) -> (r: Self)
        ensures
            r@ == idx,
            r == Position::from_int(idx as int),
    {
        Position { idx: Some(idx) }
    }

    /// The byte index, or `None` for the null position.
    pub fn opt(&self) -> (r: Option<usize>)
        ensures
            r matches Some(i) ==> self@ == i,
            r is None ==> self@ == -1,
    {
        self.idx
    }

    /// The index one step past this position: `0` for null, `i + 1` otherwise.
    pub fn next_index(&self) -> (r: usize)
        requires
            self@ < usize::MAX,
        ensures
            r == self@ + 1,
    {
        match self.idx {
            None => 0,
            Some(i) => i + 1,
        }
    }
}

/// Two positions with the same coordinate are the same position.
pub proof fn lemma_position_injective(a: Position, b: Position)
    requires
        a@ == b@,
    ensures
        a == b,
{
}

/// `from_int` inverts the coordinate view on every coordinate a buffer admits.
pub proof fn lemma_from_int_view(x: int)
    requires
        -1 <= x <= usize::MAX,
    ensures
        Position::from_int(x)@ == x,
{
}

/// Rebuilding a position from its own coordinate gives it back.
pub proof fn lemma_from_int_roundtrip(p: Position)
    ensures
        Position::from_int(p@) == p,
{
}

} // verus!
