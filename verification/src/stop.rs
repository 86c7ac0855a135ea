use vstd::prelude::*;
use crate::parse_iterator::ParseIterator;
use crate::pit::PointInTime;
use crate::position::Position;
use crate::recorder::Recorder;

verus! {

/// A wrapper that freezes its inner cursor: `advance` always reports
/// exhaustion, while position, snapshots and any active recorder stay as
/// they are. Used to end traversal early without discarding recorded work.
#[derive(Debug)]
pub struct Stop<T> {
    pub inner: T,
}

impl<T> Stop<T> {
    /// Freezes `inner`.
    pub fn new(inner: T) -> (r: Self)
        ensures
            r == (Stop { inner }),
    {
        Stop { inner }
    }

    /// Hands the frozen cursor back.
    pub fn into_inner(self) -> (r: T)
        ensures
            r == self.inner,
    {
        self.inner
    }
}

impl<'s, T: ParseIterator<'s>> ParseIterator<'s> for Stop<T> {
    type PointInTime = T::PointInTime;

    open spec fn buf(&self) -> Seq<u8> {
        self.inner.buf()
    }

    open spec fn wf(&self) -> bool {
        self.inner.wf()
    }

    open spec fn enc_valid(&self) -> bool {
        self.inner.enc_valid()
    }

    open spec fn rec_anchor(&self) -> Option<int> {
        self.inner.rec_anchor()
    }

    open spec fn can_advance(&self) -> bool {
        false
    }

    open spec fn stepped(&self) -> Self {
        *self
    }

    open spec fn pit_spec(&self) -> T::PointInTime {
        self.inner.pit_spec()
    }

    open spec fn pit_valid(&self, pit: T::PointInTime) -> bool {
        self.inner.pit_valid(pit)
    }

    open spec fn restored(&self, pit: T::PointInTime) -> Self {
        Stop { inner: self.inner.restored(pit) }
    }

    open spec fn restore_exact(&self) -> bool {
        self.inner.restore_exact()
    }

    fn slice(&self) -> (r: &'s [u8]) {
        self.inner.slice()
    }

    fn pit(&self) -> (r: T::PointInTime) {
        self.inner.pit()
    }

    fn restore_pit(&mut self, pit: T::PointInTime) {
        self.inner.restore_pit(pit);
    }

    fn advance(&mut self) -> (r: Option<()>) {
        None
    }

    fn recorder(&self) -> (r: Option<&Recorder>) {
        self.inner.recorder()
    }

    fn is_valid_utf8(&self) -> (r: bool) {
        self.inner.is_valid_utf8()
    }

    proof fn lemma_wf(&self) {
        self.inner.lemma_wf();
    }

    proof fn lemma_step(&self) {
        self.inner.lemma_wf();
    }

    proof fn lemma_restore(&self, p: T::PointInTime) {
        self.inner.lemma_restore(p);
    }

    proof fn lemma_pit_valid_with_pos(&self, p: T::PointInTime, x: Position) {
        self.inner.lemma_pit_valid_with_pos(p, x);
    }

    proof fn lemma_restore_exact(&self) {
        self.inner.lemma_restore_exact();
    }

    proof fn lemma_restore_algebra(&self, p: T::PointInTime, q: T::PointInTime) {
        self.inner.lemma_restore_algebra(p, q);
    }
}

} // verus!
