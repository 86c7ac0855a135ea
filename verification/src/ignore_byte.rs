use vstd::prelude::*;
use crate::parse_iterator::{
    lemma_run_out_props, lemma_run_out_unfold, probe, run_out, span_of, ParseIterator,
    ParseIteratorExt,
};
use crate::recorder::RecordIter;
use crate::Parser;
use crate::pit::PointInTime;
use crate::position::Position;
use crate::recorder::Recorder;

verus! {

/// The state after one step of the filtered view from `s`: any run of
/// `byte` is drained, then one real step consumes the first other byte; if
/// the buffer ends inside the run, the failing step is taken instead.
pub open spec fn skip_run<'s, T: ParseIterator<'s>>(s: T, byte: u8, fuel: nat) -> T
    decreases fuel,
{
    if fuel == 0 {
        s
    } else if !s.can_advance() {
        s.stepped()
    } else if probe(s) matches Some(b) && b == byte {
        skip_run(s.stepped(), byte, (fuel - 1) as nat)
    } else {
        s.stepped()
    }
}

/// Whether the filtered step from `s` reaches a byte other than `byte`.
pub open spec fn skip_hits<'s, T: ParseIterator<'s>>(s: T, byte: u8, fuel: nat) -> bool
    decreases fuel,
{
    if fuel == 0 || !s.can_advance() {
        false
    } else if probe(s) matches Some(b) && b == byte {
        skip_hits(s.stepped(), byte, (fuel - 1) as nat)
    } else {
        true
    }
}

proof fn lemma_skip_fuel<'s, T: ParseIterator<'s>>(s: T, byte: u8, f1: nat, f2: nat)
    requires
        s.wf(),
        f1 + s.pit_spec().pos_spec()@ >= s.buf().len(),
        f2 + s.pit_spec().pos_spec()@ >= s.buf().len(),
    ensures
        skip_run(s, byte, f1) == skip_run(s, byte, f2),
        skip_hits(s, byte, f1) == skip_hits(s, byte, f2),
    decreases f1 + f2,
{
    s.lemma_wf();
    if s.can_advance() {
        s.lemma_step();
        s.stepped().lemma_wf();
        lemma_skip_fuel(s.stepped(), byte, (f1 - 1) as nat, (f2 - 1) as nat);
    }
}

/// One unfolding of `skip_run` and `skip_hits` at full fuel.
pub proof fn lemma_skip_unfold<'s, T: ParseIterator<'s>>(s: T, byte: u8)
    requires
        s.wf(),
    ensures
        !s.can_advance() ==> skip_run(s, byte, s.buf().len() + 1) == s.stepped()
            && !skip_hits(s, byte, s.buf().len() + 1),
        s.can_advance() && (probe(s) matches Some(b) && b == byte) ==> (
            skip_run(s, byte, s.buf().len() + 1)
                == skip_run(s.stepped(), byte, s.stepped().buf().len() + 1)
            && skip_hits(s, byte, s.buf().len() + 1)
                == skip_hits(s.stepped(), byte, s.stepped().buf().len() + 1)
        ),
        s.can_advance() && !(probe(s) matches Some(b) && b == byte) ==> (
            skip_run(s, byte, s.buf().len() + 1) == s.stepped()
            && skip_hits(s, byte, s.buf().len() + 1)
        ),
{
    s.lemma_wf();
    if s.can_advance() {
        s.lemma_step();
        s.stepped().lemma_wf();
        lemma_skip_fuel(s.stepped(), byte, s.buf().len() as nat, s.buf().len() + 1);
    }
}

/// What the filtered step preserves, and how it moves the position.
pub proof fn lemma_skip_props<'s, T: ParseIterator<'s>>(s: T, byte: u8)
    requires
        s.wf(),
    ensures
        skip_run(s, byte, s.buf().len() + 1).wf(),
        skip_run(s, byte, s.buf().len() + 1).buf() == s.buf(),
        skip_run(s, byte, s.buf().len() + 1).enc_valid() == s.enc_valid(),
        skip_run(s, byte, s.buf().len() + 1).rec_anchor() == s.rec_anchor(),
        forall|p: T::PointInTime|
            skip_run(s, byte, s.buf().len() + 1).pit_valid(p) == s.pit_valid(p),
        skip_hits(s, byte, s.buf().len() + 1) ==> s.pit_spec().pos_spec()@
            < skip_run(s, byte, s.buf().len() + 1).pit_spec().pos_spec()@,
        !skip_hits(s, byte, s.buf().len() + 1) ==> s.pit_spec().pos_spec()@
            <= skip_run(s, byte, s.buf().len() + 1).pit_spec().pos_spec()@,
        s.restore_exact() && skip_hits(s, byte, s.buf().len() + 1)
            ==> skip_run(s, byte, s.buf().len() + 1).restore_exact(),
    decreases s.buf().len() - s.pit_spec().pos_spec()@,
{
    s.lemma_wf();
    s.lemma_step();
    lemma_skip_unfold(s, byte);
    if s.can_advance() && (probe(s) matches Some(b) && b == byte) {
        s.stepped().lemma_wf();
        lemma_skip_props(s.stepped(), byte);
    }
}

/// On an exactly-restorable cursor, the filtered step is undone by
/// restoring any snapshot from before it.
pub proof fn lemma_skip_restore<'s, T: ParseIterator<'s>>(s: T, byte: u8, p: T::PointInTime)
    requires
        s.wf(),
        s.restore_exact(),
        s.pit_valid(p),
    ensures
        skip_run(s, byte, s.buf().len() + 1).restored(p) == s.restored(p),
    decreases s.buf().len() - s.pit_spec().pos_spec()@,
{
    s.lemma_wf();
    s.lemma_step();
    s.lemma_restore_algebra(p, p);
    lemma_skip_unfold(s, byte);
    if s.can_advance() && (probe(s) matches Some(b) && b == byte) {
        s.stepped().lemma_wf();
        lemma_skip_restore(s.stepped(), byte, p);
    }
}

/// A wrapper that hides every occurrence of one byte from traversal: each of
/// its steps drains a run of the ignored byte and consumes the first other
/// byte. Positions and spans still use raw coordinates, so a span
/// materialized later contains the ignored bytes verbatim.
#[derive(Debug)]
pub struct IgnoreByte<T> {
    pub inner: T,
    pub byte: u8,
}

impl<T> IgnoreByte<T> {
    /// Wraps `inner`, ignoring `byte`.
    pub fn new(inner: T, byte: u8) -> (r: Self)
        ensures
            r == (IgnoreByte { inner, byte }),
    {
        IgnoreByte { inner, byte }
    }

    /// Hands the wrapped cursor back.
    pub fn into_inner(self) -> (r: T)
        ensures
            r == self.inner,
    {
        self.inner
    }
}

impl<'s, T: ParseIterator<'s>> ParseIterator<'s> for IgnoreByte<T> {
    type PointInTime = T::PointInTime;

    open spec fn buf(&self) -> Seq<u8> {
        self.inner.buf()
    }

    open spec fn wf(&self) -> bool {
        self.inner.wf()
    }

    open spec fn enc_valid(&self) -> bool {
        self.inner.enc_valid()
    }

    open spec fn rec_anchor(&self) -> Option<int> {
        self.inner.rec_anchor()
    }

    open spec fn can_advance(&self) -> bool {
        skip_hits(self.inner, self.byte, self.inner.buf().len() + 1)
    }

    open spec fn stepped(&self) -> Self {
        IgnoreByte {
            inner: skip_run(self.inner, self.byte, self.inner.buf().len() + 1),
            byte: self.byte,
        }
    }

    open spec fn pit_spec(&self) -> T::PointInTime {
        self.inner.pit_spec()
    }

    open spec fn pit_valid(&self, pit: T::PointInTime) -> bool {
        self.inner.pit_valid(pit)
    }

    open spec fn restored(&self, pit: T::PointInTime) -> Self {
        IgnoreByte { inner: self.inner.restored(pit), byte: self.byte }
    }

    open spec fn restore_exact(&self) -> bool {
        self.inner.restore_exact()
    }

    fn slice(&self) -> (r: &'s [u8]) {
        self.inner.slice()
    }

    fn pit(&self) -> (r: T::PointInTime) {
        self.inner.pit()
    }

    fn restore_pit(&mut self, pit: T::PointInTime) {
        self.inner.restore_pit(pit);
    }

    fn advance(&mut self) -> (r: Option<()>) {
        loop
            invariant
                self.inner.wf(),
                self.byte == old(self).byte,
                self.inner.buf() == old(self).inner.buf(),
                skip_run(old(self).inner, old(self).byte, old(self).inner.buf().len() + 1)
                    == skip_run(self.inner, self.byte, self.inner.buf().len() + 1),
                skip_hits(old(self).inner, old(self).byte, old(self).inner.buf().len() + 1)
                    == skip_hits(self.inner, self.byte, self.inner.buf().len() + 1),
            decreases self.inner.buf().len() - self.inner.pit_spec().pos_spec()@,
        {
            proof {
                self.inner.lemma_wf();
                self.inner.lemma_step();
                lemma_skip_unfold(self.inner, self.byte);
            }
            match self.inner.advance() {
                None => {
                    return None;
                },
                Some(()) => {
                    let b = match self.inner.byte() {
                        Some(b) => b,
                        None => vstd::pervasive::unreached(),
                    };
                    if b != self.byte {
                        return Some(());
                    }
                },
            }
            proof {
                self.inner.lemma_wf();
            }
        }
    }

    fn recorder(&self) -> (r: Option<&Recorder>) {
        self.inner.recorder()
    }

    fn is_valid_utf8(&self) -> (r: bool) {
        self.inner.is_valid_utf8()
    }

    proof fn lemma_wf(&self) {
        self.inner.lemma_wf();
    }

    proof fn lemma_step(&self) {
        self.inner.lemma_wf();
        lemma_skip_props(self.inner, self.byte);
    }

    proof fn lemma_restore(&self, p: T::PointInTime) {
        self.inner.lemma_restore(p);
    }

    proof fn lemma_pit_valid_with_pos(&self, p: T::PointInTime, x: Position) {
        self.inner.lemma_pit_valid_with_pos(p, x);
    }

    proof fn lemma_restore_exact(&self) {
        self.inner.lemma_wf();
        self.inner.lemma_restore_exact();
        lemma_skip_restore(self.inner, self.byte, self.inner.pit_spec());
    }

    proof fn lemma_restore_algebra(&self, p: T::PointInTime, q: T::PointInTime) {
        self.inner.lemma_wf();
        self.inner.lemma_restore_algebra(p, q);
        lemma_skip_restore(self.inner, self.byte, p);
    }
}

proof fn lemma_skip_to_end<'s>(s: Parser<'s>, byte: u8)
    requires
        s.wf(),
        !skip_hits(s, byte, s.buf().len() + 1),
    ensures
        skip_run(s, byte, s.buf().len() + 1).pit.pos@ == if s.buf().len() == 0 {
            -1int
        } else {
            s.buf().len() - 1
        },
    decreases s.buf().len() - s.pit.pos@,
{
    s.lemma_wf();
    s.lemma_step();
    lemma_skip_unfold(s, byte);
    if s.can_advance() {
        s.stepped().lemma_wf();
        lemma_skip_to_end(s.stepped(), byte);
    }
}

proof fn lemma_filtered_chain_runs_out<'s>(r: RecordIter<IgnoreByte<Parser<'s>>>)
    requires
        r.wf(),
    ensures
        run_out(r).inner.inner.pit.pos@ == if r.buf().len() == 0 {
            -1int
        } else {
            r.buf().len() - 1
        },
    decreases r.buf().len() - r.inner.inner.pit.pos@,
{
    r.lemma_wf();
    r.lemma_step();
    r.inner.inner.lemma_wf();
    lemma_run_out_unfold(r);
    lemma_skip_props(r.inner.inner, r.inner.byte);
    if r.can_advance() {
        r.stepped().lemma_wf();
        lemma_filtered_chain_runs_out(r.stepped());
    } else {
        lemma_skip_to_end(r.inner.inner, r.inner.byte);
    }
}

/// Filtering drops nothing from what is recorded: consuming a byte-filtered
/// view of a leaf cursor to exhaustion and materializing the recorded span
/// yields the buffer's raw bytes from the anchor to the end, occurrences of
/// the filtered byte included, since spans are cut from raw positions.
pub proof fn lemma_filtered_span_keeps_bytes<'s>(r: RecordIter<IgnoreByte<Parser<'s>>>)
    requires
        r.wf(),
    ensures
        span_of(run_out(r)) == r.buf().subrange(r.recorder@ + 1, r.buf().len() as int),
        r.recorder@ == -1 ==> span_of(run_out(r)) == r.buf(),
{
    lemma_run_out_props(r);
    lemma_filtered_chain_runs_out(r);
    r.lemma_wf();
    run_out(r).lemma_wf();
    assert(span_of(run_out(r)) =~= r.buf().subrange(r.recorder@ + 1, r.buf().len() as int));
    if r.recorder@ == -1 {
        assert(r.buf().subrange(0, r.buf().len() as int) =~= r.buf());
    }
}

} // verus!
