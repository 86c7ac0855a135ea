use vstd::prelude::*;
use crate::parse_iterator::{obeys_pred, probe, ParseIterator, ParseIteratorExt};
use crate::pit::PointInTime;
use crate::position::Position;
use crate::recorder::Recorder;

verus! {

/// A wrapper bounded by a byte predicate: each step takes one inner step and
/// keeps it only when the produced byte satisfies the predicate; otherwise
/// the snapshot from before the step is restored and exhaustion is reported,
/// so the first disqualifying byte is never consumed.
pub struct WhileByteFn<T, F> {
    pub inner: T,
    pub f: F,
    pub pred: Ghost<spec_fn(u8) -> bool>,
}

impl<T, F: Fn(u8) -> bool> WhileByteFn<T, F> {
    /// Wraps `inner`, bounded by `f`. The function must accept every byte
    /// and answer along some one predicate, which the wrapper's contract
    /// then speaks of.
    pub fn new(inner: T, f: F) -> (r: Self)
        requires
            forall|b: u8| #[trigger] call_requires(f, (b,)),
            exists|p: spec_fn(u8) -> bool| #[trigger] obeys_pred(f, p),
        ensures
            r.inner == inner,
            r.f == f,
            obeys_pred(f, r.pred@),
    {
        let ghost pred = choose|p: spec_fn(u8) -> bool| obeys_pred(f, p);
        WhileByteFn { inner, f, pred: Ghost(pred) }
    }

    /// Hands the wrapped cursor back.
    pub fn into_inner(self) -> (r: T)
        ensures
            r == self.inner,
    {
        self.inner
    }
}

impl<'s, T: ParseIterator<'s>, F: Fn(u8) -> bool> ParseIterator<'s> for WhileByteFn<T, F> {
    type PointInTime = T::PointInTime;

    open spec fn buf(&self) -> Seq<u8> {
        self.inner.buf()
    }

    open spec fn wf(&self) -> bool {
        self.inner.wf() && obeys_pred(self.f, self.pred@)
    }

    open spec fn enc_valid(&self) -> bool {
        self.inner.enc_valid()
    }

    open spec fn rec_anchor(&self) -> Option<int> {
        self.inner.rec_anchor()
    }

    open spec fn can_advance(&self) -> bool {
        self.inner.can_advance() && (probe(self.inner) matches Some(b) && self.pred@(b))
    }

    open spec fn stepped(&self) -> Self {
        if !self.inner.can_advance() {
            WhileByteFn { inner: self.inner.stepped(), f: self.f, pred: self.pred }
        } else if probe(self.inner) matches Some(b) && self.pred@(b) {
            WhileByteFn { inner: self.inner.stepped(), f: self.f, pred: self.pred }
        } else {
            WhileByteFn {
                inner: self.inner.stepped().restored(self.inner.pit_spec()),
                f: self.f,
                pred: self.pred,
            }
        }
    }

    open spec fn pit_spec(&self) -> T::PointInTime {
        self.inner.pit_spec()
    }

    open spec fn pit_valid(&self, pit: T::PointInTime) -> bool {
        self.inner.pit_valid(pit)
    }

    open spec fn restored(&self, pit: T::PointInTime) -> Self {
        WhileByteFn { inner: self.inner.restored(pit), f: self.f, pred: self.pred }
    }

    open spec fn restore_exact(&self) -> bool {
        self.inner.restore_exact()
    }

    fn slice(&self) -> (r: &'s [u8]) {
        self.inner.slice()
    }

    fn pit(&self) -> (r: T::PointInTime) {
        self.inner.pit()
    }

    fn restore_pit(&mut self, pit: T::PointInTime) {
        self.inner.restore_pit(pit);
    }

    fn advance(&mut self) -> (r: Option<()>) {
        proof {
            self.inner.lemma_wf();
            self.inner.lemma_step();
            self.inner.stepped().lemma_restore(self.inner.pit_spec());
        }
        let pit = self.inner.pit();
        match self.inner.advance() {
            None => None,
            Some(()) => {
                let b = match self.inner.byte() {
                    Some(b) => b,
                    None => vstd::pervasive::unreached(),
                };
                if (self.f)(b) {
                    Some(())
                } else {
                    self.inner.restore_pit(pit);
                    None
                }
            },
        }
    }

    fn recorder(&self) -> (r: Option<&Recorder>) {
        self.inner.recorder()
    }

    fn is_valid_utf8(&self) -> (r: bool) {
        self.inner.is_valid_utf8()
    }

    proof fn lemma_wf(&self) {
        self.inner.lemma_wf();
    }

    proof fn lemma_step(&self) {
        self.inner.lemma_wf();
        self.inner.lemma_step();
        self.inner.stepped().lemma_restore(self.inner.pit_spec());
    }

    proof fn lemma_restore(&self, p: T::PointInTime) {
        self.inner.lemma_restore(p);
    }

    proof fn lemma_pit_valid_with_pos(&self, p: T::PointInTime, x: Position) {
        self.inner.lemma_pit_valid_with_pos(p, x);
    }

    proof fn lemma_restore_exact(&self) {
        self.inner.lemma_wf();
        self.inner.lemma_step();
        self.inner.lemma_restore_exact();
        if self.inner.can_advance()
            && !(probe(self.inner) matches Some(b) && self.pred@(b)) {
            self.inner.stepped().lemma_restore(self.inner.pit_spec());
            self.inner.stepped().lemma_restore_algebra(
                self.inner.pit_spec(),
                self.inner.pit_spec(),
            );
            self.inner.lemma_restore_algebra(self.inner.pit_spec(), self.inner.pit_spec());
        }
    }

    proof fn lemma_restore_algebra(&self, p: T::PointInTime, q: T::PointInTime) {
        self.inner.lemma_wf();
        self.inner.lemma_step();
        self.inner.lemma_restore_algebra(p, q);
        if self.inner.can_advance()
            && !(probe(self.inner) matches Some(b) && self.pred@(b)) {
            // the boundary case steps and restores before the restore at hand
            self.inner.stepped().lemma_restore(self.inner.pit_spec());
            self.inner.stepped().lemma_restore_algebra(self.inner.pit_spec(), p);
        }
    }
}

/// The boundary byte is never consumed: when a predicate-bounded view
/// reports exhaustion while the wrapped cursor could still step, the failing
/// step leaves the wrapped cursor exactly in place, and the byte one direct
/// step of the wrapped cursor then yields is exactly the byte the predicate
/// rejected.
///
/// The wrapped cursor must be exactly restorable, since the failing step
/// undoes itself by restoring a snapshot: a delimiter splitter wrapped over
/// a cursor with a stateful snapshot restores position only, so for such a
/// chain the in-place claim does not hold. Every chain rooted in a leaf
/// cursor, with at most the outermost layer a splitter, satisfies it.
pub proof fn lemma_boundary_byte_not_consumed<'s, T: ParseIterator<'s>, F: Fn(u8) -> bool>(
    w: WhileByteFn<T, F>,
)
    requires
        w.wf(),
        w.restore_exact(),
        !w.can_advance(),
        w.inner.can_advance(),
    ensures
        w.stepped().inner == w.inner,
        probe(w.inner) matches Some(b) && !w.pred@(b),
        probe(w.stepped().inner) == probe(w.inner),
{
    w.inner.lemma_wf();
    w.inner.lemma_step();
    w.inner.stepped().lemma_wf();
    w.inner.lemma_restore_exact();
}

} // verus!
