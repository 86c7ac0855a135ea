use vstd::prelude::*;
use crate::parse_iterator::ParseIterator;
use crate::pit::PointInTime;
use crate::position::Position;

verus! {

/// An anchor marking where a recordable span begins.
///
/// A recorded span covers the bytes strictly after the anchor, up to and
/// including the byte at the owning cursor's current record position.
#[derive(Debug, Clone, Copy, PartialEq, Eq)]
pub struct Recorder {
    pos: Position,
}

impl View for Recorder {
    type V = int;

    /// The anchor coordinate.
    closed spec fn view(&self) -> int {
        self.pos@
    }
}

impl Recorder {
    pub(crate) fn new(pos: Position) -> (r: Self)
        ensures
            r@ == pos@,
    {
        Recorder { pos }
    }

    /// The anchor position.
    pub fn pos(&self) -> (r: Position)
        ensures
            r@ == self@,
    {
        self.pos
    }
}

/// A wrapper that starts a recording at the position its inner cursor stands
/// at; every traversal operation passes through unchanged, and the recorded
/// span can then be materialized from the original buffer.
#[derive(Debug)]
pub struct RecordIter<T> {
    pub inner: T,
    pub recorder: Recorder,
}

impl<T> RecordIter<T> {
    /// Hands the wrapped cursor back, ending the recording scope.
    pub fn into_inner(self) -> (r: T)
        ensures
            r == self.inner,
    {
        self.inner
    }
}

impl<'s, T: ParseIterator<'s>> RecordIter<T> {
    /// Starts recording at the record position `inner` currently stands at.
    pub fn new(inner: T) -> (r: Self)
        requires
            inner.wf(),
        ensures
            r.inner == inner,
            r.recorder@ == inner.pit_spec().record_pos_spec()@,
            r.wf(),
    {
        proof {
            inner.lemma_wf();
        }
        let pos = inner.pit().record_pos();
        RecordIter { inner, recorder: Recorder::new(pos) }
    }
}

impl<'s, T: ParseIterator<'s>> ParseIterator<'s> for RecordIter<T> {
    type PointInTime = T::PointInTime;

    open spec fn buf(&self) -> Seq<u8> {
        self.inner.buf()
    }

    open spec fn wf(&self) -> bool {
        self.inner.wf() && crate::parse_iterator::valid_coord(self.inner.buf(), self.recorder@)
    }

    open spec fn enc_valid(&self) -> bool {
        self.inner.enc_valid()
    }

    open spec fn rec_anchor(&self) -> Option<int> {
        Some(self.recorder@)
    }

    open spec fn can_advance(&self) -> bool {
        self.inner.can_advance()
    }

    open spec fn stepped(&self) -> Self {
        RecordIter { inner: self.inner.stepped(), recorder: self.recorder }
    }

    open spec fn pit_spec(&self) -> T::PointInTime {
        self.inner.pit_spec()
    }

    open spec fn pit_valid(&self, pit: T::PointInTime) -> bool {
        self.inner.pit_valid(pit)
    }

    open spec fn restored(&self, pit: T::PointInTime) -> Self {
        RecordIter { inner: self.inner.restored(pit), recorder: self.recorder }
    }

    open spec fn restore_exact(&self) -> bool {
        self.inner.restore_exact()
    }

    fn slice(&self) -> (r: &'s [u8]) {
        self.inner.slice()
    }

    fn pit(&self) -> (r: T::PointInTime) {
        self.inner.pit()
    }

    fn restore_pit(&mut self, pit: T::PointInTime) {
        self.inner.restore_pit(pit);
    }

    fn advance(&mut self) -> (r: Option<()>) {
        self.inner.advance()
    }

    fn recorder(&self) -> (r: Option<&Recorder>) {
        Some(&self.recorder)
    }

    fn is_valid_utf8(&self) -> (r: bool) {
        self.inner.is_valid_utf8()
    }

    proof fn lemma_wf(&self) {
        self.inner.lemma_wf();
    }

    proof fn lemma_step(&self) {
        self.inner.lemma_step();
    }

    proof fn lemma_restore(&self, p: T::PointInTime) {
        self.inner.lemma_restore(p);
    }

    proof fn lemma_pit_valid_with_pos(&self, p: T::PointInTime, x: Position) {
        self.inner.lemma_pit_valid_with_pos(p, x);
    }

    proof fn lemma_restore_exact(&self) {
        self.inner.lemma_restore_exact();
    }

    proof fn lemma_restore_algebra(&self, p: T::PointInTime, q: T::PointInTime) {
        self.inner.lemma_restore_algebra(p, q);
    }
}

} // verus!
