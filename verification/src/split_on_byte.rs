use vstd::prelude::*;
use crate::parse_iterator::{
    lemma_run_out_props, lemma_run_out_unfold, probe, run_out, valid_coord, ParseIterator,
    ParseIteratorExt,
};
use crate::pit::PointInTime;
use crate::position::Position;
use crate::recorder::Recorder;
use crate::Parser;

verus! {

/// The snapshot of a delimiter-splitting cursor: a position, whether the
/// delimiter closed the current segment, and, just after the step that found
/// the delimiter, the position the segment's recorded span ends at, so that
/// the delimiter itself stays out of the span.
#[derive(Debug, Clone, Copy, PartialEq, Eq)]
pub struct SplitOnBytePointInTime {
    pub pos: Position,
    pub byte_reached: bool,
    pub record_pos: Option<Position>,
}

impl PointInTime for SplitOnBytePointInTime {
    open spec fn pos_spec(&self) -> Position {
        self.pos
    }

    open spec fn record_pos_spec(&self) -> Position {
        match self.record_pos {
            Some(o) => o,
            None => self.pos,
        }
    }

    open spec fn with_pos_spec(&self, pos: Position) -> Self {
        SplitOnBytePointInTime {
            pos,
            byte_reached: self.byte_reached,
            record_pos: self.record_pos,
        }
    }

    open spec fn pos_only() -> bool {
        false
    }

    fn pos(&self) -> (r: Position) {
        self.pos
    }

    fn record_pos(&self) -> (r: Position) {
        match self.record_pos {
            Some(o) => o,
            None => self.pos,
        }
    }

    fn set_pos(&mut self, pos: Position) {
        self.pos = pos;
    }

    proof fn lemma_with_pos(&self, p: Position, q: Position) {
        if p@ == self.pos@ {
            crate::position::lemma_position_injective(p, self.pos);
        }
    }

    proof fn lemma_pos_only(a: Self, b: Self, x: Position) {
    }
}

/// The segment state that `SplitOnByte::next` hands out: the boundary flag
/// cleared, so the new segment is open, and the span-end override cleared.
pub open spec fn seg_opened<'s, T: ParseIterator<'s>>(s: SplitOnByteIter<T>) -> SplitOnByteIter<T> {
    SplitOnByteIter {
        pit: SplitOnBytePointInTime {
            pos: s.pit.pos,
            byte_reached: false,
            record_pos: None,
        },
        ..s
    }
}

/// Splits a cursor into segments at every occurrence of one byte: each call
/// of [`Self::next`] runs the previous segment to its end, steps past the
/// delimiter that closed it, and hands out the next segment; the delimiter
/// itself shows up in no segment. Reaching the end of the buffer without a
/// fresh delimiter ends iteration, with no trailing empty segment.
#[derive(Debug)]
pub struct SplitOnByte<T> {
    pub inner: SplitOnByteIter<T>,
}

impl<T> SplitOnByte<T> {
    /// Hands the underlying cursor back.
    pub fn into_inner(self) -> (r: T)
        ensures
            r == self.inner.inner,
    {
        self.inner.into_inner()
    }
}

impl<'s, T: ParseIterator<'s>> SplitOnByte<T> {
    /// Splits `inner` on `byte`.
    pub fn new(inner: T, byte: u8) -> (r: Self)
        requires
            inner.wf(),
        ensures
            r.inner == SplitOnByteIter::<T>::new_spec(inner, byte),
            r.inner.wf(),
    {
        SplitOnByte { inner: SplitOnByteIter::new(inner, byte) }
    }

    /// Opens the next segment, or reports that no further delimiter closed
    /// the previous one. The handle stays borrowed from this splitter, so
    /// traversing it advances the shared cursor underneath.
    pub fn next(&mut self) -> (r: Option<&mut SplitOnByteIter<T>>)
        requires
            old(self).inner.wf(),
        ensures
            r matches Some(seg) ==> ({
                &&& run_out(old(self).inner).pit.byte_reached
                &&& *seg == seg_opened(run_out(old(self).inner))
                &&& seg.wf()
                &&& final(self).inner == *final(seg)
            }),
            r is None ==> ({
                &&& !run_out(old(self).inner).pit.byte_reached
                &&& *final(self) == (SplitOnByte { inner: run_out(old(self).inner) })
                &&& final(self).inner.wf()
            }),
    {
        match self.inner.reach_split_byte() {
            Some(()) => {
                self.inner.pit.record_pos = None;
                Some(&mut self.inner)
            },
            None => None,
        }
    }
}

/// How many more segments a splitter will yield from `s`.
pub open spec fn seg_count_n<'s, T: ParseIterator<'s>>(s: SplitOnByteIter<T>, fuel: nat) -> nat
    decreases fuel,
{
    if fuel == 0 {
        0
    } else if run_out(s).pit.byte_reached {
        seg_count_n(seg_opened(run_out(s)), (fuel - 1) as nat) + 1
    } else {
        0
    }
}

/// How many more segments a splitter will yield: at most one per byte, plus
/// the segment already open.
pub open spec fn seg_count<'s, T: ParseIterator<'s>>(s: SplitOnByteIter<T>) -> nat {
    seg_count_n(s, 2 * s.buf().len() + 4)
}

proof fn lemma_seg_count_fuel<'s, T: ParseIterator<'s>>(s: SplitOnByteIter<T>, f1: nat, f2: nat)
    requires
        s.wf(),
        f1 >= 2 * (s.buf().len() - s.pit.pos@) + (if s.pit.byte_reached { 2int } else { 1int }),
        f2 >= 2 * (s.buf().len() - s.pit.pos@) + (if s.pit.byte_reached { 2int } else { 1int }),
    ensures
        seg_count_n(s, f1) == seg_count_n(s, f2),
    decreases f1 + f2,
{
    s.lemma_wf();
    crate::parse_iterator::lemma_run_out_props(s);
    lemma_run_out_boundary(s);
    if run_out(s).pit.byte_reached {
        run_out(s).lemma_wf();
        lemma_seg_count_fuel(seg_opened(run_out(s)), (f1 - 1) as nat, (f2 - 1) as nat);
    }
}

/// One unfolding of `seg_count`.
pub proof fn lemma_seg_count_unfold<'s, T: ParseIterator<'s>>(s: SplitOnByteIter<T>)
    requires
        s.wf(),
    ensures
        run_out(s).pit.byte_reached ==> seg_count(s)
            == seg_count(seg_opened(run_out(s))) + 1,
        !run_out(s).pit.byte_reached ==> seg_count(s) == 0,
{
    s.lemma_wf();
    crate::parse_iterator::lemma_run_out_props(s);
    lemma_run_out_boundary(s);
    if run_out(s).pit.byte_reached {
        run_out(s).lemma_wf();
        lemma_seg_count_fuel(
            seg_opened(run_out(s)),
            (2 * s.buf().len() + 3) as nat,
            2 * seg_opened(run_out(s)).buf().len() + 4,
        );
    }
}

/// Running a splitter to the end of its segment never moves it backwards,
/// and when a delimiter closes the segment the position strictly advanced.
pub proof fn lemma_run_out_boundary<'s, T: ParseIterator<'s>>(s: SplitOnByteIter<T>)
    requires
        s.wf(),
    ensures
        run_out(s).pit.pos@ >= s.pit.pos@,
        !s.pit.byte_reached && run_out(s).pit.byte_reached
            ==> run_out(s).pit.pos@ > s.pit.pos@,
    decreases s.buf().len() - s.pit.pos@,
{
    s.lemma_wf();
    s.lemma_step();
    s.inner.lemma_wf();
    s.inner.lemma_step();
    lemma_run_out_unfold(s);
    if s.can_advance() {
        s.stepped().lemma_wf();
        lemma_run_out_boundary(s.stepped());
    }
}

/// The state a walk over the segments stands on just before opening
/// segment `i`: the starting state, or wherever the visitor left segment
/// `i - 1`.
pub open spec fn walk_src<'s, T: ParseIterator<'s>>(
    start: SplitOnByteIter<T>,
    posts: Seq<SplitOnByteIter<T>>,
    i: int,
) -> SplitOnByteIter<T> {
    if i == 0 {
        start
    } else {
        posts[i - 1]
    }
}

/// The boundary states of one complete walk over the remaining segments:
/// `pres[i]` is segment `i` exactly as it is handed out — the segment that
/// opens once the walk runs out from wherever the previous visit ended —
/// `posts[i]` is the state that visit left it in, and after the last visit
/// the walk ran out without meeting another delimiter.
pub open spec fn walk_boundaries<'s, T: ParseIterator<'s>>(
    start: SplitOnByteIter<T>,
    pres: Seq<SplitOnByteIter<T>>,
    posts: Seq<SplitOnByteIter<T>>,
    end: SplitOnByteIter<T>,
) -> bool {
    &&& posts.len() == pres.len()
    &&& (forall|i: int| 0 <= i < pres.len()
        ==> run_out(#[trigger] walk_src(start, posts, i)).pit.byte_reached)
    &&& (forall|i: int| 0 <= i < pres.len()
        ==> #[trigger] pres[i] == seg_opened(run_out(walk_src(start, posts, i))))
    &&& end == run_out(walk_src(start, posts, pres.len() as int))
    &&& !end.pit.byte_reached
}

impl<'s, T: ParseIterator<'s>> SplitOnByte<T> {
    /// Calls `f` on each remaining segment in order, driving the shared
    /// cursor past each delimiter in between.
    ///
    /// The function receives each segment as a live handle; it must keep the
    /// cursor well formed over the same buffer and never move it backwards,
    /// and whenever it closes a segment itself it must have moved forward,
    /// so that the walk makes progress.
    pub fn for_each<F: Fn(&mut SplitOnByteIter<T>)>(&mut self, f: F)
        requires
            old(self).inner.wf(),
            forall|seg: &mut SplitOnByteIter<T>|
                seg.wf() ==> #[trigger] call_requires(f, (seg,)),
            forall|seg: &mut SplitOnByteIter<T>, o: ()|
                #[trigger] call_ensures(f, (seg,), o) ==> (final(seg).wf()
                    && final(seg).buf() == seg.buf()
                    && final(seg).pit.pos@ >= seg.pit.pos@
                    && (final(seg).pit.byte_reached ==> final(seg).pit.pos@ > seg.pit.pos@)),
        ensures
            final(self).inner.wf(),
            !final(self).inner.pit.byte_reached,
            exists|pres: Seq<SplitOnByteIter<T>>, posts: Seq<SplitOnByteIter<T>>| {
                &&& #[trigger] walk_boundaries(old(self).inner, pres, posts, final(self).inner)
                &&& (forall|i: int| 0 <= i < pres.len()
                    ==> exists|seg: &mut SplitOnByteIter<T>|
                        *seg == #[trigger] pres[i] && *final(seg) == posts[i]
                            && call_ensures(f, (seg,), ()))
                &&& ((forall|seg: &mut SplitOnByteIter<T>, o: ()|
                    #[trigger] call_ensures(f, (seg,), o)
                        ==> seg_count(*final(seg)) == seg_count(*seg))
                    ==> pres.len() == seg_count(old(self).inner))
            },
    {
        let ghost mut pres: Seq<SplitOnByteIter<T>> = Seq::empty();
        let ghost mut posts: Seq<SplitOnByteIter<T>> = Seq::empty();
        loop
            invariant_except_break
                self.inner.wf(),
                forall|seg: &mut SplitOnByteIter<T>|
                    seg.wf() ==> #[trigger] call_requires(f, (seg,)),
                forall|seg: &mut SplitOnByteIter<T>, o: ()|
                    #[trigger] call_ensures(f, (seg,), o) ==> (final(seg).wf()
                        && final(seg).buf() == seg.buf()
                        && final(seg).pit.pos@ >= seg.pit.pos@
                        && (final(seg).pit.byte_reached
                            ==> final(seg).pit.pos@ > seg.pit.pos@)),
                posts.len() == pres.len(),
                self.inner == walk_src(old(self).inner, posts, pres.len() as int),
                forall|i: int| 0 <= i < pres.len()
                    ==> run_out(#[trigger] walk_src(old(self).inner, posts, i))
                        .pit.byte_reached,
                forall|i: int| 0 <= i < pres.len() ==> #[trigger] pres[i]
                    == seg_opened(run_out(walk_src(old(self).inner, posts, i))),
                forall|i: int| 0 <= i < pres.len()
                    ==> exists|seg: &mut SplitOnByteIter<T>|
                        *seg == #[trigger] pres[i] && *final(seg) == posts[i]
                            && call_ensures(f, (seg,), ()),
                (forall|seg: &mut SplitOnByteIter<T>, o: ()|
                    #[trigger] call_ensures(f, (seg,), o)
                        ==> seg_count(*final(seg)) == seg_count(*seg))
                    ==> seg_count(self.inner) + pres.len()
                        == seg_count(old(self).inner),
            ensures
                self.inner.wf(),
                !self.inner.pit.byte_reached,
                walk_boundaries(old(self).inner, pres, posts, self.inner),
                forall|i: int| 0 <= i < pres.len()
                    ==> exists|seg: &mut SplitOnByteIter<T>|
                        *seg == #[trigger] pres[i] && *final(seg) == posts[i]
                            && call_ensures(f, (seg,), ()),
                (forall|seg: &mut SplitOnByteIter<T>, o: ()|
                    #[trigger] call_ensures(f, (seg,), o)
                        ==> seg_count(*final(seg)) == seg_count(*seg))
                    ==> pres.len() == seg_count(old(self).inner),
            decreases 2 * self.inner.buf().len() + 1 - (2 * self.inner.pit.pos@
                + if self.inner.pit.byte_reached { 0int } else { 1int }),
        {
            let ghost pre = self.inner;
            proof {
                self.inner.lemma_wf();
                lemma_run_out_props(self.inner);
                lemma_run_out_boundary(self.inner);
                lemma_seg_count_unfold(self.inner);
            }
            match self.next() {
                Some(seg) => {
                    f(seg);
                },
                None => {
                    break;
                },
            }
            proof {
                let prev_posts = posts;
                let j = pres.len() as int;
                pres = pres.push(seg_opened(run_out(pre)));
                posts = posts.push(self.inner);
                assert forall|i: int| 0 <= i < pres.len() implies
                    walk_src(old(self).inner, posts, i) == (if i < j {
                        walk_src(old(self).inner, prev_posts, i)
                    } else {
                        pre
                    }) by {
                }
            }
        }
    }

    /// Calls `f` on each remaining segment in order and collects what it
    /// returns, one element per segment.
    ///
    /// Beyond the obligations of [`Self::for_each`], the function must stay
    /// within the segment it was handed: the segments remaining after its
    /// call are the segments that remained before it.
    pub fn map_and_collect<A, F: Fn(&mut SplitOnByteIter<T>) -> A>(&mut self, f: F)
        -> (r: Vec<A>)
        requires
            old(self).inner.wf(),
            forall|seg: &mut SplitOnByteIter<T>|
                seg.wf() ==> #[trigger] call_requires(f, (seg,)),
            forall|seg: &mut SplitOnByteIter<T>, o: A|
                #[trigger] call_ensures(f, (seg,), o) ==> (final(seg).wf()
                    && final(seg).buf() == seg.buf()
                    && final(seg).pit.pos@ >= seg.pit.pos@
                    && (final(seg).pit.byte_reached ==> final(seg).pit.pos@ > seg.pit.pos@)
                    && seg_count(*final(seg)) == seg_count(*seg)),
        ensures
            final(self).inner.wf(),
            !final(self).inner.pit.byte_reached,
            r.len() == seg_count(old(self).inner),
            exists|pres: Seq<SplitOnByteIter<T>>, posts: Seq<SplitOnByteIter<T>>| {
                &&& #[trigger] walk_boundaries(old(self).inner, pres, posts, final(self).inner)
                &&& pres.len() == r.len()
                &&& (forall|i: int| 0 <= i < pres.len()
                    ==> exists|seg: &mut SplitOnByteIter<T>|
                        *seg == #[trigger] pres[i] && *final(seg) == posts[i]
                            && call_ensures(f, (seg,), r@[i]))
            },
    {
        let mut r: Vec<A> = Vec::new();
        let ghost mut pres: Seq<SplitOnByteIter<T>> = Seq::empty();
        let ghost mut posts: Seq<SplitOnByteIter<T>> = Seq::empty();
        loop
            invariant_except_break
                self.inner.wf(),
                r.len() + seg_count(self.inner) == seg_count(old(self).inner),
                forall|seg: &mut SplitOnByteIter<T>|
                    seg.wf() ==> #[trigger] call_requires(f, (seg,)),
                forall|seg: &mut SplitOnByteIter<T>, o: A|
                    #[trigger] call_ensures(f, (seg,), o) ==> (final(seg).wf()
                        && final(seg).buf() == seg.buf()
                        && final(seg).pit.pos@ >= seg.pit.pos@
                        && (final(seg).pit.byte_reached
                            ==> final(seg).pit.pos@ > seg.pit.pos@)
                        && seg_count(*final(seg)) == seg_count(*seg)),
                posts.len() == pres.len(),
                pres.len() == r.len(),
                self.inner == walk_src(old(self).inner, posts, pres.len() as int),
                forall|i: int| 0 <= i < pres.len()
                    ==> run_out(#[trigger] walk_src(old(self).inner, posts, i))
                        .pit.byte_reached,
                forall|i: int| 0 <= i < pres.len() ==> #[trigger] pres[i]
                    == seg_opened(run_out(walk_src(old(self).inner, posts, i))),
                forall|i: int| 0 <= i < pres.len()
                    ==> exists|seg: &mut SplitOnByteIter<T>|
                        *seg == #[trigger] pres[i] && *final(seg) == posts[i]
                            && call_ensures(f, (seg,), r@[i]),
            ensures
                self.inner.wf(),
                !self.inner.pit.byte_reached,
                r.len() == seg_count(old(self).inner),
                walk_boundaries(old(self).inner, pres, posts, self.inner),
                pres.len() == r.len(),
                forall|i: int| 0 <= i < pres.len()
                    ==> exists|seg: &mut SplitOnByteIter<T>|
                        *seg == #[trigger] pres[i] && *final(seg) == posts[i]
                            && call_ensures(f, (seg,), r@[i]),
            decreases 2 * self.inner.buf().len() + 1 - (2 * self.inner.pit.pos@
                + if self.inner.pit.byte_reached { 0int } else { 1int }),
        {
            let ghost pre = self.inner;
            proof {
                self.inner.lemma_wf();
                lemma_run_out_props(self.inner);
                lemma_run_out_boundary(self.inner);
                lemma_seg_count_unfold(self.inner);
            }
            match self.next() {
                Some(seg) => {
                    let a = f(seg);
                    r.push(a);
                },
                None => {
                    break;
                },
            }
            proof {
                let prev_posts = posts;
                let j = pres.len() as int;
                pres = pres.push(seg_opened(run_out(pre)));
                posts = posts.push(self.inner);
                assert forall|i: int| 0 <= i < pres.len() implies
                    walk_src(old(self).inner, posts, i) == (if i < j {
                        walk_src(old(self).inner, prev_posts, i)
                    } else {
                        pre
                    }) by {
                }
            }
        }
        r
    }
}

/// One bounded sub-cursor of a delimiter split: it exposes the bytes up to,
/// and excluding, the next occurrence of the delimiter, and reports
/// exhaustion at the delimiter or at the end of the buffer.
#[derive(Debug)]
pub struct SplitOnByteIter<T> {
    pub inner: T,
    pub byte: u8,
    pub pit: SplitOnBytePointInTime,
}

impl<T> SplitOnByteIter<T> {
    /// Hands the wrapped cursor back.
    pub fn into_inner(self) -> (r: T)
        ensures
            r == self.inner,
    {
        self.inner
    }
}

impl<'s, T: ParseIterator<'s>> SplitOnByteIter<T> {
    /// The state that [`Self::new`] builds.
    pub open spec fn new_spec(inner: T, byte: u8) -> Self {
        SplitOnByteIter {
            inner,
            byte,
            pit: SplitOnBytePointInTime {
                pos: inner.pit_spec().pos_spec(),
                byte_reached: true,
                record_pos: None,
            },
        }
    }

    /// Wraps `inner` for splitting on `byte`; the boundary flag starts set,
    /// so that opening the first segment skips nothing.
    pub fn new(inner: T, byte: u8) -> (r: Self)
        requires
            inner.wf(),
        ensures
            r == SplitOnByteIter::<T>::new_spec(inner, byte),
            r.wf(),
    {
        proof {
            inner.lemma_wf();
        }
        let pit = SplitOnBytePointInTime {
            pos: inner.pit().pos(),
            byte_reached: true,
            record_pos: None,
        };
        SplitOnByteIter { inner, byte, pit }
    }

    /// Consumes the rest of the open segment and returns its raw span: the
    /// bytes strictly after the position this handle stands at, up to and
    /// excluding the delimiter that closes the segment, or up to the end of
    /// the buffer when no delimiter follows. On a leaf split,
    /// [`lemma_segment_span`] ties this span to the spec segmentation that
    /// [`lemma_split_round_trip`] rebuilds the buffer from.
    pub fn consume_span(&mut self) -> (r: &'s [u8])
        requires
            old(self).wf(),
            old(self).pit_spec().record_pos_spec()@
                <= run_out(*old(self)).pit_spec().record_pos_spec()@,
        ensures
            *final(self) == run_out(*old(self)),
            final(self).wf(),
            r@ == old(self).buf().subrange(
                old(self).pit_spec().record_pos_spec()@ + 1,
                run_out(*old(self)).pit_spec().record_pos_spec()@ + 1,
            ),
    {
        proof {
            self.lemma_wf();
            lemma_run_out_props(*self);
        }
        let start = self.pit().record_pos();
        self.consume();
        let end = self.pit().record_pos();
        proof {
            self.lemma_wf();
        }
        vstd::slice::slice_subrange(self.slice(), start.next_index(), end.next_index())
    }

    /// Runs the open segment to its end, then opens the next segment when a
    /// delimiter closed this one; reports `None` at the end of the buffer.
    pub fn reach_split_byte(&mut self) -> (r: Option<()>)
        requires
            old(self).wf(),
        ensures
            final(self).wf(),
            r.is_some() == run_out(*old(self)).pit.byte_reached,
            r is Some ==> *final(self) == (SplitOnByteIter {
                pit: SplitOnBytePointInTime {
                    byte_reached: false,
                    ..run_out(*old(self)).pit
                },
                ..run_out(*old(self))
            }),
            r is None ==> *final(self) == run_out(*old(self)),
    {
        proof {
            lemma_run_out_props(*old(self));
        }
        self.consume();
        if self.pit.byte_reached {
            self.pit.byte_reached = false;
            Some(())
        } else {
            None
        }
    }
}

impl<'s, T: ParseIterator<'s>> ParseIterator<'s> for SplitOnByteIter<T> {
    type PointInTime = SplitOnBytePointInTime;

    open spec fn buf(&self) -> Seq<u8> {
        self.inner.buf()
    }

    open spec fn wf(&self) -> bool {
        &&& self.inner.wf()
        &&& valid_coord(self.inner.buf(), self.pit.pos@)
        &&& (self.pit.record_pos matches Some(rp)
            ==> valid_coord(self.inner.buf(), rp@))
        &&& self.pit.pos@ <= self.inner.pit_spec().pos_spec()@
    }

    open spec fn enc_valid(&self) -> bool {
        self.inner.enc_valid()
    }

    open spec fn rec_anchor(&self) -> Option<int> {
        self.inner.rec_anchor()
    }

    open spec fn can_advance(&self) -> bool {
        &&& !self.pit.byte_reached
        &&& self.inner.can_advance()
        &&& (probe(self.inner) matches Some(b) && b != self.byte)
    }

    open spec fn stepped(&self) -> Self {
        if self.pit.byte_reached {
            *self
        } else if !self.inner.can_advance() {
            SplitOnByteIter { inner: self.inner.stepped(), byte: self.byte, pit: self.pit }
        } else if probe(self.inner) matches Some(b) && b == self.byte {
            SplitOnByteIter {
                inner: self.inner.stepped(),
                byte: self.byte,
                pit: SplitOnBytePointInTime {
                    pos: self.inner.stepped().pit_spec().pos_spec(),
                    byte_reached: true,
                    record_pos: Some(self.inner.pit_spec().pos_spec()),
                },
            }
        } else {
            SplitOnByteIter {
                inner: self.inner.stepped(),
                byte: self.byte,
                pit: SplitOnBytePointInTime {
                    pos: self.inner.stepped().pit_spec().pos_spec(),
                    byte_reached: false,
                    record_pos: None,
                },
            }
        }
    }

    open spec fn pit_spec(&self) -> SplitOnBytePointInTime {
        self.pit
    }

    open spec fn pit_valid(&self, pit: SplitOnBytePointInTime) -> bool {
        &&& valid_coord(self.inner.buf(), pit.pos@)
        &&& (pit.record_pos matches Some(rp) ==> valid_coord(self.inner.buf(), rp@))
    }

    open spec fn restored(&self, pit: SplitOnBytePointInTime) -> Self {
        SplitOnByteIter {
            inner: self.inner.restored(self.inner.pit_spec().with_pos_spec(pit.pos)),
            byte: self.byte,
            pit,
        }
    }

    open spec fn restore_exact(&self) -> bool {
        &&& self.inner.restore_exact()
        &&& T::PointInTime::pos_only()
        &&& self.pit.pos == self.inner.pit_spec().pos_spec()
    }

    fn slice(&self) -> (r: &'s [u8]) {
        self.inner.slice()
    }

    fn pit(&self) -> (r: SplitOnBytePointInTime) {
        self.pit
    }

    fn restore_pit(&mut self, pit: SplitOnBytePointInTime) {
        // the cursor beneath does not notice position changes on its own:
        // force its snapshot onto the restored position
        proof {
            self.inner.lemma_wf();
            self.inner.lemma_pit_valid_with_pos(self.inner.pit_spec(), pit.pos);
            self.inner.pit_spec().lemma_with_pos(pit.pos, pit.pos);
        }
        let mut inner_pit = self.inner.pit();
        inner_pit.set_pos(pit.pos);
        self.inner.restore_pit(inner_pit);
        proof {
            old(self).inner.lemma_restore(
                old(self).inner.pit_spec().with_pos_spec(pit.pos),
            );
        }
        self.pit = pit;
    }

    fn advance(&mut self) -> (r: Option<()>) {
        if self.pit.byte_reached {
            return None;
        }
        proof {
            self.inner.lemma_wf();
            self.inner.lemma_step();
        }
        let start = self.inner.pit().pos();
        match self.inner.advance() {
            None => None,
            Some(()) => {
                let b = match self.inner.byte() {
                    Some(b) => b,
                    None => vstd::pervasive::unreached(),
                };
                self.pit.pos = self.inner.pit().pos();
                if b == self.byte {
                    self.pit.byte_reached = true;
                    self.pit.record_pos = Some(start);
                    None
                } else {
                    self.pit.record_pos = None;
                    Some(())
                }
            },
        }
    }

    fn recorder(&self) -> (r: Option<&Recorder>) {
        self.inner.recorder()
    }

    fn is_valid_utf8(&self) -> (r: bool) {
        self.inner.is_valid_utf8()
    }

    proof fn lemma_wf(&self) {
        self.inner.lemma_wf();
    }

    proof fn lemma_step(&self) {
        self.inner.lemma_wf();
        self.inner.lemma_step();
        self.inner.stepped().lemma_wf();
    }

    proof fn lemma_restore(&self, p: SplitOnBytePointInTime) {
        self.inner.lemma_wf();
        self.inner.lemma_pit_valid_with_pos(self.inner.pit_spec(), p.pos);
        self.inner.pit_spec().lemma_with_pos(p.pos, p.pos);
        self.inner.lemma_restore(self.inner.pit_spec().with_pos_spec(p.pos));
    }

    proof fn lemma_pit_valid_with_pos(&self, p: SplitOnBytePointInTime, x: Position) {
    }

    proof fn lemma_restore_exact(&self) {
        self.inner.lemma_wf();
        self.inner.lemma_step();
        self.inner.pit_spec().lemma_with_pos(self.pit.pos, self.pit.pos);
        self.inner.lemma_restore_exact();
        <T::PointInTime as PointInTime>::lemma_pos_only(
            self.stepped().inner.pit_spec(),
            self.inner.pit_spec(),
            self.pit.pos,
        );
        self.inner.lemma_restore_algebra(self.inner.pit_spec(), self.inner.pit_spec());
    }

    proof fn lemma_restore_algebra(&self, p: SplitOnBytePointInTime, q: SplitOnBytePointInTime) {
        self.inner.lemma_wf();
        self.inner.lemma_step();
        self.inner.lemma_pit_valid_with_pos(self.inner.pit_spec(), p.pos);
        self.inner.lemma_pit_valid_with_pos(self.inner.pit_spec(), q.pos);
        let wp = self.inner.pit_spec().with_pos_spec(p.pos);
        let wq = self.inner.pit_spec().with_pos_spec(q.pos);
        self.inner.pit_spec().lemma_with_pos(p.pos, q.pos);
        <T::PointInTime as PointInTime>::lemma_pos_only(
            self.stepped().inner.pit_spec(),
            self.inner.pit_spec(),
            p.pos,
        );
        self.inner.lemma_restore_algebra(wp, wq);
        self.inner.lemma_restore(wp);
        wp.lemma_with_pos(q.pos, q.pos);
    }
}

/// The index of the first occurrence of `d` at or after `from`, or the
/// buffer length when there is none.
pub open spec fn next_delim(buf: Seq<u8>, d: u8, from: int) -> int
    decreases buf.len() - from,
{
    if from < 0 || from >= buf.len() {
        buf.len() as int
    } else if buf[from] == d {
        from
    } else {
        next_delim(buf, d, from + 1)
    }
}

/// Where `next_delim` points: past `from`, within the buffer, at a
/// delimiter, and past no delimiter.
pub proof fn lemma_next_delim(buf: Seq<u8>, d: u8, from: int)
    requires
        0 <= from <= buf.len(),
    ensures
        from <= next_delim(buf, d, from) <= buf.len(),
        next_delim(buf, d, from) < buf.len() ==> buf[next_delim(buf, d, from)] == d,
        forall|i: int| from <= i < next_delim(buf, d, from) ==> buf[i] != d,
    decreases buf.len() - from,
{
    if from < buf.len() && buf[from] != d {
        lemma_next_delim(buf, d, from + 1);
    }
}

/// The raw spans of all the segments of `buf` strictly after coordinate
/// `from`: each span runs up to, and excludes, the next delimiter; the last
/// runs to the end of the buffer.
pub open spec fn split_spans(buf: Seq<u8>, d: u8, from: int) -> Seq<Seq<u8>>
    decreases buf.len() - from,
    when -1 <= from
    via split_spans_decreases
{
    if next_delim(buf, d, from + 1) >= buf.len() {
        seq![buf.subrange(from + 1, buf.len() as int)]
    } else {
        seq![buf.subrange(from + 1, next_delim(buf, d, from + 1))]
            + split_spans(buf, d, next_delim(buf, d, from + 1))
    }
}

#[via_fn]
proof fn split_spans_decreases(buf: Seq<u8>, d: u8, from: int) {
    if from + 1 <= buf.len() {
        lemma_next_delim(buf, d, from + 1);
    }
}

/// `spans` glued back together with one `d` between each adjacent pair.
pub open spec fn join_with(spans: Seq<Seq<u8>>, d: u8) -> Seq<u8>
    decreases spans.len(),
{
    if spans.len() == 0 {
        Seq::empty()
    } else if spans.len() == 1 {
        spans[0]
    } else {
        spans[0] + seq![d] + join_with(spans.drop_first(), d)
    }
}

/// The split round-trip: re-inserting the delimiter between all segments'
/// raw spans rebuilds exactly the region they were split from, for any
/// delimiter byte and any buffer.
pub proof fn lemma_split_round_trip(buf: Seq<u8>, d: u8, from: int)
    requires
        -1 <= from,
        from + 1 <= buf.len(),
    ensures
        join_with(split_spans(buf, d, from), d) == buf.subrange(from + 1, buf.len() as int),
    decreases buf.len() - from,
{
    lemma_next_delim(buf, d, from + 1);
    let nd = next_delim(buf, d, from + 1);
    if nd < buf.len() {
        lemma_split_round_trip(buf, d, nd);
        assert(split_spans(buf, d, from).drop_first() =~= split_spans(buf, d, nd));
        assert(buf.subrange(from + 1, nd) + seq![d] + buf.subrange(nd + 1, buf.len() as int)
            =~= buf.subrange(from + 1, buf.len() as int));
    }
}

/// Closing one segment of a leaf split agrees with the spec segmentation:
/// from an open segment, running out stops exactly at the delimiter that
/// `next_delim` names, stashing the span end just before it so the
/// delimiter stays out of the span, or reaches the end of the buffer when
/// there is none, and the segment's raw span is delimiter-free.
pub proof fn lemma_segment_run<'s>(s: SplitOnByteIter<Parser<'s>>)
    requires
        s.wf(),
        !s.pit.byte_reached,
        s.pit.record_pos is None,
        s.pit.pos@ == s.inner.pit.pos@,
    ensures
        next_delim(s.buf(), s.byte, s.pit.pos@ + 1) < s.buf().len() ==> ({
            let nd = next_delim(s.buf(), s.byte, s.pit.pos@ + 1);
            &&& run_out(s).pit.byte_reached
            &&& run_out(s).pit.pos@ == nd
            &&& (run_out(s).pit.record_pos matches Some(rp) && rp@ == nd - 1)
            &&& run_out(s).inner.pit.pos@ == nd
        }),
        next_delim(s.buf(), s.byte, s.pit.pos@ + 1) >= s.buf().len() ==> ({
            &&& !run_out(s).pit.byte_reached
            &&& run_out(s).pit.record_pos is None
            &&& run_out(s).pit.pos@ == (if s.buf().len() == 0 {
                -1int
            } else {
                s.buf().len() - 1
            })
        }),
    decreases s.buf().len() - s.pit.pos@,
{
    s.lemma_wf();
    s.lemma_step();
    s.inner.lemma_wf();
    s.inner.lemma_step();
    lemma_run_out_unfold(s);
    crate::position::lemma_from_int_view(s.inner.pit.pos@ + 1);
    if s.pit.pos@ + 1 <= s.buf().len() {
        lemma_next_delim(s.buf(), s.byte, s.pit.pos@ + 1);
    }
    if s.can_advance() {
        s.stepped().lemma_wf();
        assert(s.stepped().inner.pit.pos@ == s.pit.pos@ + 1);
        assert(next_delim(s.buf(), s.byte, s.pit.pos@ + 1)
            == next_delim(s.buf(), s.byte, s.pit.pos@ + 2));
        lemma_segment_run(s.stepped());
    } else {
        assert(run_out(s) == s.stepped());
    }
}

/// The raw span of a closed segment is exactly the spec segmentation's
/// first span from the boundary the segment opened at: the delimiter that
/// closed it stays out, and what it excludes is rebuilt by
/// [`lemma_split_round_trip`].
pub proof fn lemma_segment_span<'s>(s: SplitOnByteIter<Parser<'s>>)
    requires
        s.wf(),
        !s.pit.byte_reached,
        s.pit.record_pos is None,
        s.pit.pos@ == s.inner.pit.pos@,
    ensures
        s.buf().subrange(
            s.pit.pos@ + 1,
            run_out(s).pit_spec().record_pos_spec()@ + 1,
        ) == split_spans(s.buf(), s.byte, s.pit.pos@)[0],
{
    lemma_segment_run(s);
    s.lemma_wf();
    lemma_next_delim(s.buf(), s.byte, s.pit.pos@ + 1);
    let nd = next_delim(s.buf(), s.byte, s.pit.pos@ + 1);
    if nd < s.buf().len() {
        assert(run_out(s).pit_spec().record_pos_spec()@ == nd - 1);
    } else {
        assert(s.buf().subrange(s.pit.pos@ + 1, run_out(s).pit_spec().record_pos_spec()@ + 1)
            =~= s.buf().subrange(s.pit.pos@ + 1, s.buf().len() as int));
    }
}

} // verus!
