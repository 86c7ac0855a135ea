use vstd::prelude::*;
use crate::position::Position;

verus! {

/// A saved snapshot of a cursor's traversal state.
///
/// Every snapshot carries at least a [`Position`]; a cursor type may add
/// bookkeeping of its own. A snapshot is a plain copyable value and is only
/// meaningful for the cursor instance that produced it.
pub trait PointInTime: Sized + Copy {
    /// The stored position.
    spec fn pos_spec(&self) -> Position;

    /// The position that a recorded span ends at while this snapshot is
    /// current.
    spec fn record_pos_spec(&self) -> Position;

    /// This snapshot with its position replaced and all other bookkeeping
    /// kept.
    spec fn with_pos_spec(&self, pos: Position) -> Self;

    /// Whether a snapshot of this type holds nothing beyond its position, so
    /// that replacing the position determines the whole snapshot.
    spec fn pos_only() -> bool;

    /// The stored position.
    fn pos(&self) -> (r: Position)
        ensures
            r == self.pos_spec(),
    ;

    /// The end position of a recorded span.
    fn record_pos(&self) -> (r: Position)
        ensures
            r == self.record_pos_spec(),
    ;

    /// Replace the stored position, keeping all other bookkeeping.
    ///
    /// Meant only for a wrapper that must resynchronize the cursor beneath it;
    /// restoring a snapshot altered this way discards that cursor's own
    /// account of where it stands.
    fn set_pos(&mut self, pos: Position)
        ensures
            *final(self) == old(self).with_pos_spec(pos),
    ;

    /// Replacing the position behaves like a plain field update.
    proof fn lemma_with_pos(&self, p: Position, q: Position)
        ensures
            self.with_pos_spec(p).pos_spec() == p,
            p == self.pos_spec() ==> self.with_pos_spec(p) == *self,
            self.with_pos_spec(p).with_pos_spec(q) == self.with_pos_spec(q),
    ;

    /// When snapshots of this type hold nothing beyond a position, replacing
    /// the position erases every difference between two of them.
    proof fn lemma_pos_only(a: Self, b: Self, x: Position)
        ensures
            Self::pos_only() ==> a.with_pos_spec(x) == b.with_pos_spec(x),
    ;
}

/// The snapshot used by the leaf cursors: a bare position.
#[derive(Debug, Clone, Copy, PartialEq, Eq)]
pub struct ParserPointInTime {
    pub pos: Position,
}

impl ParserPointInTime {
    /// A snapshot at the position before the first byte.
    pub fn new() -> (r: Self)
        ensures
            r.pos_spec()@ == -1,
    {
        ParserPointInTime { pos: Position::null() }
    }
}

impl PointInTime for ParserPointInTime {
    open spec fn pos_spec(&self) -> Position {
        self.pos
    }

    open spec fn record_pos_spec(&self) -> Position {
        self.pos
    }

    open spec fn with_pos_spec(&self, pos: Position) -> Self {
        ParserPointInTime { pos }
    }

    open spec fn pos_only() -> bool {
        true
    }

    fn pos(&self) -> (r: Position) {
        self.pos
    }

    fn record_pos(&self) -> (r: Position) {
        self.pos
    }

    fn set_pos(&mut self, pos: Position) {
        self.pos = pos;
    }

    proof fn lemma_with_pos(&self, p: Position, q: Position) {
    }

    proof fn lemma_pos_only(a: Self, b: Self, x: Position) {
    }
}

} // verus!
