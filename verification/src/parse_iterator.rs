use vstd::prelude::*;
use vstd::string::StringSliceAdditionalSpecFns;
use crate::pit::PointInTime;
use crate::recorder::Recorder;

verus! {

/// A coordinate that may stand in a snapshot over `buf`: the null coordinate
/// `-1`, or the index of a byte of `buf`.
pub open spec fn valid_coord(buf: Seq<u8>, x: int) -> bool {
    -1 <= x && (x == -1 || x < buf.len())
}

/// The byte under the cursor, or `None` when the cursor stands before the
/// first byte.
pub open spec fn cur_byte<'s, T: ParseIterator<'s>>(s: T) -> Option<u8> {
    if s.pit_spec().pos_spec()@ >= 0 {
        Some(s.buf()[s.pit_spec().pos_spec()@])
    } else {
        None
    }
}

/// The byte that the next `advance` of `s` would yield, or `None` when it
/// would report exhaustion.
pub open spec fn probe<'s, T: ParseIterator<'s>>(s: T) -> Option<u8> {
    if s.can_advance() {
        cur_byte(s.stepped())
    } else {
        None
    }
}

/// The state that a peek leaves behind: one step taken, then the snapshot
/// from before it restored.
pub open spec fn peeked<'s, T: ParseIterator<'s>>(s: T) -> T {
    s.stepped().restored(s.pit_spec())
}

/// The recorded span of `s`: the bytes strictly after the recorder's anchor,
/// up to and including the byte at the current record position.
pub open spec fn span_of<'s, T: ParseIterator<'s>>(s: T) -> Seq<u8> {
    s.buf().subrange(s.rec_anchor().unwrap() + 1, s.pit_spec().record_pos_spec()@ + 1)
}

/// The state after `n` calls of `advance`, successful or not.
pub open spec fn stepped_n<'s, T: ParseIterator<'s>>(s: T, n: nat) -> T
    decreases n,
{
    if n == 0 {
        s
    } else {
        stepped_n(s.stepped(), (n - 1) as nat)
    }
}

/// How many of `n` attempted `advance` calls succeed before the first
/// exhaustion.
pub open spec fn free_steps<'s, T: ParseIterator<'s>>(s: T, n: nat) -> nat
    decreases n,
{
    if n == 0 || !s.can_advance() {
        0
    } else {
        free_steps(s.stepped(), (n - 1) as nat) + 1
    }
}

/// The state that `fuel` more `advance` calls leave behind, stopping after
/// the first one that reports exhaustion.
pub open spec fn run_out_n<'s, T: ParseIterator<'s>>(s: T, fuel: nat) -> T
    decreases fuel,
{
    if !s.can_advance() || fuel == 0 {
        s.stepped()
    } else {
        run_out_n(s.stepped(), (fuel - 1) as nat)
    }
}

/// The state that advancing to exhaustion leaves behind: every cursor runs
/// out within one step per buffer byte.
pub open spec fn run_out<'s, T: ParseIterator<'s>>(s: T) -> T {
    run_out_n(s, s.buf().len() + 1)
}

/// How many `advance` calls succeed before exhaustion.
pub open spec fn run_len<'s, T: ParseIterator<'s>>(s: T) -> nat {
    free_steps(s, s.buf().len() + 1)
}

/// The predicate satisfied exactly by `byte`.
pub open spec fn eq_byte(byte: u8) -> spec_fn(u8) -> bool {
    |b: u8| b == byte
}

/// Whether the spec predicate `p` names exactly what the executable
/// predicate `f` may answer: `f` accepts every byte, and every answer it can
/// give agrees with `p`.
pub open spec fn obeys_pred<F: Fn(u8) -> bool>(f: F, p: spec_fn(u8) -> bool) -> bool {
    &&& forall|b: u8| #[trigger] call_requires(f, (b,))
    &&& forall|b: u8, r: bool| #[trigger] call_ensures(f, (b,), r) ==> r == p(b)
}

/// How many steps a run of bytes satisfying `p` takes from `s`.
pub open spec fn match_steps<'s, T: ParseIterator<'s>>(
    s: T,
    p: spec_fn(u8) -> bool,
    fuel: nat,
) -> nat
    decreases fuel,
{
    if fuel == 0 || !s.can_advance() {
        0
    } else if probe(s) matches Some(b) && p(b) {
        match_steps(s.stepped(), p, (fuel - 1) as nat) + 1
    } else {
        0
    }
}

/// The state that advancing while `p` holds leaves behind: the advance that
/// met the boundary byte is undone by restoring the snapshot from before it,
/// so the boundary byte is not consumed; exhaustion takes its failing step.
pub open spec fn match_run<'s, T: ParseIterator<'s>>(
    s: T,
    p: spec_fn(u8) -> bool,
    fuel: nat,
) -> T
    decreases fuel,
{
    if fuel == 0 {
        s
    } else if !s.can_advance() {
        s.stepped()
    } else if probe(s) matches Some(b) && p(b) {
        match_run(s.stepped(), p, (fuel - 1) as nat)
    } else {
        s.stepped().restored(s.pit_spec())
    }
}

proof fn lemma_match_run_fuel<'s, T: ParseIterator<'s>>(
    s: T,
    p: spec_fn(u8) -> bool,
    f1: nat,
    f2: nat,
)
    requires
        s.wf(),
        f1 + s.pit_spec().pos_spec()@ >= s.buf().len(),
        f2 + s.pit_spec().pos_spec()@ >= s.buf().len(),
    ensures
        match_run(s, p, f1) == match_run(s, p, f2),
        match_steps(s, p, f1) == match_steps(s, p, f2),
    decreases f1 + f2,
{
    s.lemma_wf();
    if s.can_advance() {
        s.lemma_step();
        s.stepped().lemma_wf();
        lemma_match_run_fuel(s.stepped(), p, (f1 - 1) as nat, (f2 - 1) as nat);
    }
}

/// One unfolding of `match_run` and `match_steps` at full fuel.
pub proof fn lemma_match_run_unfold<'s, T: ParseIterator<'s>>(s: T, p: spec_fn(u8) -> bool)
    requires
        s.wf(),
    ensures
        !s.can_advance() ==> match_run(s, p, s.buf().len() + 1) == s.stepped()
            && match_steps(s, p, s.buf().len() + 1) == 0,
        s.can_advance() && (probe(s) matches Some(b) && p(b)) ==> (
            match_run(s, p, s.buf().len() + 1)
                == match_run(s.stepped(), p, s.stepped().buf().len() + 1)
            && match_steps(s, p, s.buf().len() + 1)
                == match_steps(s.stepped(), p, s.stepped().buf().len() + 1) + 1
        ),
        s.can_advance() && !(probe(s) matches Some(b) && p(b)) ==> (
            match_run(s, p, s.buf().len() + 1)
                == s.stepped().restored(s.pit_spec())
            && match_steps(s, p, s.buf().len() + 1) == 0
        ),
{
    if s.can_advance() {
        s.lemma_step();
        s.lemma_wf();
        s.stepped().lemma_wf();
        lemma_match_run_fuel(s.stepped(), p, s.buf().len() as nat, s.buf().len() + 1);
    }
}

/// A completed run of successful steps completes over any shorter span too.
pub proof fn lemma_free_steps_prefix<'s, T: ParseIterator<'s>>(s: T, n: nat, m: nat)
    requires
        free_steps(s, n) == n,
        m <= n,
    ensures
        free_steps(s, m) == m,
    decreases m,
{
    if m > 0 {
        lemma_free_steps_prefix(s.stepped(), (n - 1) as nat, (m - 1) as nat);
    }
}

/// However many attempts were allowed, the successful steps they yielded
/// would all succeed again on their own.
pub proof fn lemma_free_steps_self<'s, T: ParseIterator<'s>>(s: T, n: nat)
    ensures
        free_steps(s, free_steps(s, n)) == free_steps(s, n),
    decreases n,
{
    if n > 0 && s.can_advance() {
        lemma_free_steps_self(s.stepped(), (n - 1) as nat);
    }
}

/// On an exactly-restorable cursor, any walk whose failures come last is
/// undone by restoring a snapshot from before it.
pub proof fn lemma_stepped_n_restore<'s, T: ParseIterator<'s>>(
    s: T,
    n: nat,
    pit: T::PointInTime,
)
    requires
        s.wf(),
        s.restore_exact(),
        s.pit_valid(pit),
        n == 0 || free_steps(s, (n - 1) as nat) == n - 1,
    ensures
        stepped_n(s, n).restored(pit) == s.restored(pit),
    decreases n,
{
    reveal_with_fuel(stepped_n, 2);
    if n == 1 {
        s.lemma_restore_algebra(pit, pit);
        assert(stepped_n(s, 1) == s.stepped());
    } else if n > 1 {
        s.lemma_step();
        s.lemma_wf();
        s.lemma_restore_algebra(pit, pit);
        lemma_stepped_n_restore(s.stepped(), (n - 1) as nat, pit);
        assert(stepped_n(s, n) == stepped_n(s.stepped(), (n - 1) as nat));
    }
}

/// What any number of steps preserves.
pub proof fn lemma_stepped_n_props<'s, T: ParseIterator<'s>>(s: T, n: nat)
    requires
        s.wf(),
    ensures
        stepped_n(s, n).wf(),
        stepped_n(s, n).buf() == s.buf(),
        stepped_n(s, n).enc_valid() == s.enc_valid(),
        stepped_n(s, n).rec_anchor() == s.rec_anchor(),
        forall|p: T::PointInTime| stepped_n(s, n).pit_valid(p) == s.pit_valid(p),
        stepped_n(s, n).pit_spec().pos_spec()@ >= s.pit_spec().pos_spec()@,
    decreases n,
{
    if n > 0 {
        s.lemma_step();
        lemma_stepped_n_props(s.stepped(), (n - 1) as nat);
    }
}

/// A block of `n + 1` steps is a block of `n` steps followed by one more.
pub proof fn lemma_stepped_n_snoc<'s, T: ParseIterator<'s>>(s: T, n: nat)
    ensures
        stepped_n(s, n + 1) == stepped_n(s, n).stepped(),
    decreases n,
{
    if n == 0 {
        assert(stepped_n(s, 1) == stepped_n(s.stepped(), 0));
    } else {
        assert(stepped_n(s, n + 1) == stepped_n(s.stepped(), n));
        assert(stepped_n(s, n) == stepped_n(s.stepped(), (n - 1) as nat));
        lemma_stepped_n_snoc(s.stepped(), (n - 1) as nat);
    }
}

/// Extending a run of `n` successful steps by one attempt.
pub proof fn lemma_free_steps_snoc<'s, T: ParseIterator<'s>>(s: T, n: nat)
    requires
        free_steps(s, n) == n,
    ensures
        free_steps(s, n + 1) == if stepped_n(s, n).can_advance() {
            (n + 1) as int
        } else {
            n as int
        },
    decreases n,
{
    if n == 0 {
        reveal_with_fuel(free_steps, 2);
        assert(free_steps(s, 1) == if s.can_advance() { 1int } else { 0int });
    } else {
        assert(s.can_advance());
        assert(free_steps(s, n + 1) == free_steps(s.stepped(), n) + 1);
        assert(free_steps(s, n) == free_steps(s.stepped(), (n - 1) as nat) + 1);
        lemma_free_steps_snoc(s.stepped(), (n - 1) as nat);
        assert(stepped_n(s, n) == stepped_n(s.stepped(), (n - 1) as nat));
    }
}

/// Once exhaustion was reached after `n` successful steps, allowing more
/// attempts changes nothing.
pub proof fn lemma_free_steps_stall<'s, T: ParseIterator<'s>>(s: T, n: nat, m: nat)
    requires
        free_steps(s, n) == n,
        !stepped_n(s, n).can_advance(),
        m >= n,
    ensures
        free_steps(s, m) == n,
    decreases n,
{
    if n > 0 {
        lemma_free_steps_stall(s.stepped(), (n - 1) as nat, (m - 1) as nat);
    } else {
        if m > 0 && s.can_advance() {
            assert(false);
        }
    }
}

/// Successful steps are bounded by the buffer bytes that remain.
pub proof fn lemma_free_steps_bound<'s, T: ParseIterator<'s>>(s: T, f: nat)
    requires
        s.wf(),
    ensures
        free_steps(s, f) == 0 || free_steps(s, f) + s.pit_spec().pos_spec()@
            <= s.buf().len() - 1,
    decreases f,
{
    s.lemma_wf();
    if f > 0 && s.can_advance() {
        s.lemma_step();
        s.stepped().lemma_wf();
        lemma_free_steps_bound(s.stepped(), (f - 1) as nat);
    }
}

proof fn lemma_run_out_n_fuel<'s, T: ParseIterator<'s>>(s: T, f1: nat, f2: nat)
    requires
        s.wf(),
        f1 + s.pit_spec().pos_spec()@ >= s.buf().len(),
        f2 + s.pit_spec().pos_spec()@ >= s.buf().len(),
    ensures
        run_out_n(s, f1) == run_out_n(s, f2),
    decreases f1 + f2,
{
    if s.can_advance() {
        s.lemma_step();
        s.stepped().lemma_wf();
        lemma_run_out_n_fuel(s.stepped(), (f1 - 1) as nat, (f2 - 1) as nat);
    }
}

/// One unfolding of `run_out`.
pub proof fn lemma_run_out_unfold<'s, T: ParseIterator<'s>>(s: T)
    requires
        s.wf(),
    ensures
        s.can_advance() ==> run_out(s) == run_out(s.stepped()),
        !s.can_advance() ==> run_out(s) == s.stepped(),
    decreases s.buf().len() - s.pit_spec().pos_spec()@,
{
    if s.can_advance() {
        s.lemma_step();
        s.lemma_wf();
        s.stepped().lemma_wf();
        lemma_run_out_n_fuel(s.stepped(), s.buf().len() as nat, s.buf().len() + 1);
    }
}

/// What running to exhaustion preserves.
pub proof fn lemma_run_out_props<'s, T: ParseIterator<'s>>(s: T)
    requires
        s.wf(),
    ensures
        run_out(s).wf(),
        run_out(s).buf() == s.buf(),
        run_out(s).enc_valid() == s.enc_valid(),
        run_out(s).rec_anchor() == s.rec_anchor(),
        forall|p: T::PointInTime| run_out(s).pit_valid(p) == s.pit_valid(p),
    decreases s.buf().len() - s.pit_spec().pos_spec()@,
{
    s.lemma_step();
    s.lemma_wf();
    lemma_run_out_unfold(s);
    if s.can_advance() {
        s.stepped().lemma_wf();
        lemma_run_out_props(s.stepped());
    } else {
        s.stepped().lemma_step();
    }
}

/// Attempting the same number of steps with more fuel at hand changes
/// nothing once the fuel covers the whole buffer.
pub proof fn lemma_free_steps_fuel<'s, T: ParseIterator<'s>>(s: T, f1: nat, f2: nat)
    requires
        s.wf(),
        f1 + s.pit_spec().pos_spec()@ >= s.buf().len(),
        f2 + s.pit_spec().pos_spec()@ >= s.buf().len(),
    ensures
        free_steps(s, f1) == free_steps(s, f2),
    decreases f1 + f2,
{
    if s.can_advance() {
        s.lemma_step();
        s.stepped().lemma_wf();
        lemma_free_steps_fuel(s.stepped(), (f1 - 1) as nat, (f2 - 1) as nat);
    }
}

/// A run to exhaustion splits into any completed prefix and the rest.
pub proof fn lemma_run_len_decompose<'s, T: ParseIterator<'s>>(s: T, n: nat)
    requires
        s.wf(),
        free_steps(s, n) == n,
    ensures
        run_len(s) == n + run_len(stepped_n(s, n)),
        run_out(s) == run_out(stepped_n(s, n)),
    decreases n,
{
    if n == 0 {
    } else {
        s.lemma_step();
        s.lemma_wf();
        s.stepped().lemma_wf();
        lemma_run_out_unfold(s);
        lemma_free_steps_fuel(s.stepped(), s.buf().len() as nat, s.buf().len() + 1);
        lemma_run_len_decompose(s.stepped(), (n - 1) as nat);
    }
}

/// A peek leaves the snapshot where it was, on every cursor: one step
/// followed by restoring the snapshot captured before it lands back on that
/// snapshot.
pub proof fn lemma_peek_keeps_pit<'s, T: ParseIterator<'s>>(s: T)
    requires
        s.wf(),
    ensures
        peeked(s).pit_spec() == s.pit_spec(),
        peeked(s).wf(),
{
    s.lemma_wf();
    s.lemma_step();
    s.stepped().lemma_restore(s.pit_spec());
}

/// On an exactly-restorable cursor a peek is a complete no-op, and restoring
/// a snapshot captured beforehand changes nothing further: after any
/// sequence of peeks the cursor is the very state it was, with the same next
/// byte and the same exhaustion answer.
pub proof fn lemma_peek_identity<'s, T: ParseIterator<'s>>(s: T)
    requires
        s.wf(),
        s.restore_exact(),
    ensures
        peeked(s) == s,
        s.restored(s.pit_spec()) == s,
{
    s.lemma_restore_exact();
}

/// Relies on std::str::from_utf8: it returns `Ok` exactly when the slice is
/// valid UTF-8, and the returned str views exactly the given bytes.
#[verifier::external_body]
fn try_from_utf8<'a>(bytes: &'a [u8]) -> (r: Option<&'a str>)
    ensures
        r is Some <==> vstd::utf8::valid_utf8(bytes@),
        r matches Some(t) ==> t.spec_bytes() == bytes@,
{
    std::str::from_utf8(bytes).ok()
}

/// The shared contract of every cursor.
///
/// A cursor walks an immutable byte buffer that outlives it. Each cursor type
/// fixes, through the spec functions below, what its state means: the buffer,
/// its snapshot, whether one more step is possible, the state one `advance`
/// call leaves behind, and the state restoring a snapshot leaves behind. The
/// executable methods are then pinned to those functions, so that every
/// wrapper reinterprets "one step" while keeping one interchangeable contract.
pub trait ParseIterator<'s>: Sized {
    /// The snapshot type of this cursor.
    type PointInTime: PointInTime;

    /// The full underlying buffer.
    spec fn buf(&self) -> Seq<u8>;

    /// The structural invariant of this cursor.
    spec fn wf(&self) -> bool;

    /// Whether the whole buffer is known to be valid UTF-8, fixed at the leaf
    /// and inherited unchanged by every wrapper.
    spec fn enc_valid(&self) -> bool;

    /// The anchor coordinate of the innermost active recording, if any.
    spec fn rec_anchor(&self) -> Option<int>;

    /// Whether one more `advance` call would succeed.
    spec fn can_advance(&self) -> bool;

    /// The state one `advance` call leaves behind, whether it succeeds or
    /// reports exhaustion.
    spec fn stepped(&self) -> Self;

    /// The current snapshot.
    spec fn pit_spec(&self) -> Self::PointInTime;

    /// The snapshots this cursor may be asked to restore.
    spec fn pit_valid(&self, pit: Self::PointInTime) -> bool;

    /// The state that restoring `pit` leaves behind.
    spec fn restored(&self, pit: Self::PointInTime) -> Self;

    /// Whether restoring the current snapshot reproduces the state exactly.
    ///
    /// This holds for the leaf cursors and is kept by every wrapper whose
    /// snapshot type carries no state beyond a position; a delimiter splitter
    /// wrapped over a cursor with a richer snapshot loses it, since restoring
    /// resynchronizes only the position of the layer beneath.
    spec fn restore_exact(&self) -> bool;

    /// Returns the full underlying slice.
    fn slice(&self) -> (r: &'s [u8])
        requires
            self.wf(),
        ensures
            r@ == self.buf(),
    ;

    /// Returns the current snapshot, to be handed back to `restore_pit`.
    fn pit(&self) -> (r: Self::PointInTime)
        requires
            self.wf(),
        ensures
            r == self.pit_spec(),
            self.pit_valid(r),
    ;

    /// Restores a snapshot previously obtained from this same instance.
    fn restore_pit(&mut self, pit: Self::PointInTime)
        requires
            old(self).wf(),
            old(self).pit_valid(pit),
        ensures
            *final(self) == old(self).restored(pit),
    ;

    /// Advances by one step of this cursor's own notion of stepping;
    /// `None` reports exhaustion.
    fn advance(&mut self) -> (r: Option<()>)
        requires
            old(self).wf(),
        ensures
            r.is_some() == old(self).can_advance(),
            *final(self) == old(self).stepped(),
    ;

    /// Returns the active recorder, if recording was started.
    fn recorder(&self) -> (r: Option<&Recorder>)
        requires
            self.wf(),
        ensures
            match r {
                Some(rec) => self.rec_anchor() == Some(rec@),
                None => self.rec_anchor() is None,
            },
    ;

    /// Whether the whole underlying buffer is guaranteed to be valid UTF-8.
    fn is_valid_utf8(&self) -> (r: bool)
        requires
            self.wf(),
        ensures
            r == self.enc_valid(),
    ;

    /// Bounds that every well-formed state obeys.
    proof fn lemma_wf(&self)
        requires
            self.wf(),
        ensures
            self.buf().len() <= usize::MAX,
            valid_coord(self.buf(), self.pit_spec().pos_spec()@),
            valid_coord(self.buf(), self.pit_spec().record_pos_spec()@),
            self.rec_anchor() matches Some(a) ==> valid_coord(self.buf(), a),
            self.enc_valid() ==> vstd::utf8::valid_utf8(self.buf()),
            self.pit_valid(self.pit_spec()),
    ;

    /// What one step preserves, and how it moves the position.
    proof fn lemma_step(&self)
        requires
            self.wf(),
        ensures
            self.stepped().wf(),
            self.stepped().buf() == self.buf(),
            self.stepped().enc_valid() == self.enc_valid(),
            self.stepped().rec_anchor() == self.rec_anchor(),
            forall|p: Self::PointInTime|
                self.stepped().pit_valid(p) == self.pit_valid(p),
            self.can_advance() ==> self.pit_spec().pos_spec()@
                < self.stepped().pit_spec().pos_spec()@,
            self.can_advance() && self.restore_exact()
                ==> self.stepped().restore_exact(),
            !self.can_advance() ==> self.pit_spec().pos_spec()@
                <= self.stepped().pit_spec().pos_spec()@,
    ;

    /// What restoring a snapshot preserves, and that it installs the snapshot.
    proof fn lemma_restore(&self, p: Self::PointInTime)
        requires
            self.wf(),
            self.pit_valid(p),
        ensures
            self.restored(p).wf(),
            self.restored(p).buf() == self.buf(),
            self.restored(p).enc_valid() == self.enc_valid(),
            self.restored(p).rec_anchor() == self.rec_anchor(),
            forall|q: Self::PointInTime|
                self.restored(p).pit_valid(q) == self.pit_valid(q),
            self.restored(p).pit_spec() == p,
            self.restore_exact() ==> self.restored(p).restore_exact(),
    ;

    /// A snapshot whose position was replaced by a coordinate of the buffer
    /// is still a snapshot this cursor accepts.
    proof fn lemma_pit_valid_with_pos(
        &self,
        p: Self::PointInTime,
        x: crate::position::Position,
    )
        requires
            self.wf(),
            self.pit_valid(p),
            valid_coord(self.buf(), x@),
        ensures
            self.pit_valid(p.with_pos_spec(x)),
    ;

    /// On an exactly-restorable cursor, restoring the current snapshot is a
    /// no-op, whether or not one step was taken in between.
    proof fn lemma_restore_exact(&self)
        requires
            self.wf(),
            self.restore_exact(),
        ensures
            self.restored(self.pit_spec()) == *self,
            self.stepped().restored(self.pit_spec()) == *self,
    ;

    /// On an exactly-restorable cursor, a step or a restore before a restore
    /// does not change where the restore lands.
    proof fn lemma_restore_algebra(&self, p: Self::PointInTime, q: Self::PointInTime)
        requires
            self.wf(),
            self.restore_exact(),
            self.pit_valid(p),
            self.pit_valid(q),
        ensures
            self.stepped().restored(p) == self.restored(p),
            self.restored(p).restored(q) == self.restored(q),
    ;
}

/// The operations every cursor derives from the core contract, implemented
/// once against [`ParseIterator`] and inherited by every cursor type.
pub trait ParseIteratorExt<'s>: ParseIterator<'s> {
    /// Returns the byte under the cursor, if the cursor stands at one.
    fn byte(&self) -> (r: Option<u8>)
        requires
            self.wf(),
        ensures
            r == cur_byte(*self),
    {
        let pit = self.pit();
        let pos = pit.pos();
        match pos.opt() {
            None => None,
            Some(i) => {
                proof {
                    self.lemma_wf();
                }
                Some(*vstd::slice::slice_index_get(self.slice(), i))
            },
        }
    }

    /// Advances and returns the byte then under the cursor, if any.
    fn next(&mut self) -> (r: Option<u8>)
        requires
            old(self).wf(),
        ensures
            *final(self) == old(self).stepped(),
            final(self).wf(),
            r == probe(*old(self)),
    {
        proof {
            self.lemma_step();
            self.lemma_wf();
        }
        match self.advance() {
            Some(()) => self.byte(),
            None => None,
        }
    }

    /// Returns the next byte without moving: one step is taken and the
    /// snapshot from before it is restored.
    ///
    /// The snapshot after the call always equals the snapshot before it; on
    /// an exactly-restorable cursor the whole state is unchanged.
    fn peek(&mut self) -> (r: Option<u8>)
        requires
            old(self).wf(),
        ensures
            *final(self) == peeked(*old(self)),
            final(self).wf(),
            final(self).pit_spec() == old(self).pit_spec(),
            r == probe(*old(self)),
            old(self).restore_exact() ==> *final(self) == *old(self),
    {
        let pit = self.pit();
        proof {
            self.lemma_wf();
            self.lemma_step();
            self.stepped().lemma_restore(pit);
            if self.restore_exact() {
                self.lemma_restore_exact();
            }
        }
        let r = self.next();
        self.restore_pit(pit);
        r
    }

    /// Advances only when `advance_if` accepts the byte a peek shows.
    /// `None` reports that the cursor was already exhausted.
    fn advance_if<F: Fn(u8) -> bool>(&mut self, advance_if: F) -> (r: Option<bool>)
        requires
            old(self).wf(),
            forall|b: u8| #[trigger] call_requires(advance_if, (b,)),
        ensures
            final(self).wf(),
            probe(*old(self)) is None ==> r is None
                && *final(self) == peeked(*old(self)),
            probe(*old(self)) matches Some(b) ==> (
                (call_ensures(advance_if, (b,), false) && r == Some(false)
                    && *final(self) == peeked(*old(self)))
                || (call_ensures(advance_if, (b,), true)
                    && r == (if peeked(*old(self)).can_advance() {
                        Option::Some(true)
                    } else {
                        Option::<bool>::None
                    }) && *final(self) == peeked(*old(self)).stepped())
            ),
            old(self).restore_exact() && probe(*old(self)) is None
                ==> *final(self) == *old(self),
    {
        proof {
            self.lemma_step();
            self.lemma_wf();
            self.stepped().lemma_restore(self.pit_spec());
            peeked(*self).lemma_step();
        }
        match self.peek() {
            None => None,
            Some(b) => {
                if advance_if(b) {
                    match self.advance() {
                        Some(()) => Some(true),
                        None => None,
                    }
                } else {
                    Some(false)
                }
            },
        }
    }

    /// Advances and yields the byte only when `next_if` accepts the byte a
    /// peek shows; reports `None` without advancing otherwise.
    fn next_if<F: Fn(u8) -> bool>(&mut self, next_if: F) -> (r: Option<u8>)
        requires
            old(self).wf(),
            forall|b: u8| #[trigger] call_requires(next_if, (b,)),
        ensures
            final(self).wf(),
            probe(*old(self)) is None ==> r is None
                && *final(self) == peeked(*old(self)),
            probe(*old(self)) matches Some(b) ==> (
                (call_ensures(next_if, (b,), false) && r is None
                    && *final(self) == peeked(*old(self)))
                || (call_ensures(next_if, (b,), true)
                    && r == probe(peeked(*old(self)))
                    && *final(self) == peeked(*old(self)).stepped())
            ),
    {
        proof {
            self.lemma_step();
            self.lemma_wf();
            self.stepped().lemma_restore(self.pit_spec());
            peeked(*self).lemma_step();
            peeked(*self).lemma_wf();
        }
        match self.peek() {
            None => None,
            Some(b) => {
                if next_if(b) {
                    self.next()
                } else {
                    None
                }
            },
        }
    }

    /// Advances until the cursor reports exhaustion.
    fn consume(&mut self)
        requires
            old(self).wf(),
        ensures
            *final(self) == run_out(*old(self)),
            final(self).wf(),
    {
        loop
            invariant_except_break
                self.wf(),
                run_out(*self) == run_out(*old(self)),
            ensures
                *self == run_out(*old(self)),
                self.wf(),
            decreases self.buf().len() - self.pit_spec().pos_spec()@,
        {
            proof {
                self.lemma_wf();
                self.lemma_step();
                lemma_run_out_unfold(*self);
            }
            if self.advance().is_none() {
                break;
            }
            proof {
                self.lemma_wf();
            }
        }
    }

    /// Advances until exhaustion and reports how many steps succeeded.
    fn consume_and_count(&mut self) -> (r: usize)
        requires
            old(self).wf(),
        ensures
            *final(self) == run_out(*old(self)),
            final(self).wf(),
            r == run_len(*old(self)),
    {
        let mut c: usize = 0;
        loop
            invariant_except_break
                old(self).wf(),
                self.wf(),
                self.buf() == old(self).buf(),
                *self == stepped_n(*old(self), c as nat),
                free_steps(*old(self), c as nat) == c,
                run_out(*self) == run_out(*old(self)),
                old(self).pit_spec().pos_spec()@ + c <= self.pit_spec().pos_spec()@,
            ensures
                *self == run_out(*old(self)),
                self.wf(),
                c == run_len(*old(self)),
            decreases self.buf().len() - self.pit_spec().pos_spec()@,
        {
            proof {
                self.lemma_wf();
                self.lemma_step();
                old(self).lemma_wf();
                lemma_run_out_unfold(*self);
                lemma_stepped_n_snoc(*old(self), c as nat);
                lemma_free_steps_snoc(*old(self), c as nat);
                if !self.can_advance() {
                    lemma_free_steps_stall(
                        *old(self),
                        c as nat,
                        old(self).buf().len() + 1,
                    );
                }
            }
            if self.advance().is_none() {
                break;
            }
            proof {
                self.lemma_wf();
            }
            c += 1;
        }
        c
    }

    /// Advances exactly `len` steps, or reports how many were possible.
    fn consume_len(&mut self, len: usize) -> (r: Result<(), usize>)
        requires
            old(self).wf(),
        ensures
            final(self).wf(),
            r matches Ok(()) ==> free_steps(*old(self), len as nat) == len
                && *final(self) == stepped_n(*old(self), len as nat),
            r matches Err(k) ==> k == free_steps(*old(self), len as nat) && k < len
                && *final(self) == stepped_n(*old(self), (k + 1) as nat),
    {
        let mut i: usize = 0;
        while i < len
            invariant
                self.wf(),
                i <= len,
                *self == stepped_n(*old(self), i as nat),
                free_steps(*old(self), i as nat) == i,
            decreases len - i,
        {
            proof {
                self.lemma_wf();
                self.lemma_step();
                lemma_stepped_n_snoc(*old(self), i as nat);
                lemma_free_steps_snoc(*old(self), i as nat);
                if !self.can_advance() {
                    lemma_free_steps_stall(*old(self), i as nat, len as nat);
                }
            }
            if self.advance().is_none() {
                return Err(i);
            }
            i += 1;
        }
        Ok(())
    }

    /// Advances at least `len` steps and then to exhaustion;
    /// `Err` reports how many steps were possible.
    fn consume_at_least(&mut self, len: usize) -> (r: Result<(), usize>)
        requires
            old(self).wf(),
        ensures
            final(self).wf(),
            r matches Ok(()) ==> free_steps(*old(self), len as nat) == len
                && *final(self) == run_out(*old(self)),
            r matches Err(k) ==> k == free_steps(*old(self), len as nat) && k < len
                && *final(self) == stepped_n(*old(self), (k + 1) as nat),
    {
        match self.consume_len(len) {
            Ok(()) => {
                proof {
                    lemma_run_len_decompose(*old(self), len as nat);
                }
                self.consume();
                Ok(())
            },
            Err(k) => Err(k),
        }
    }

    /// Advances at least `len` steps and then to exhaustion, reporting the
    /// total number of steps; `Err` reports how many steps were possible.
    fn consume_at_least_and_count(&mut self, len: usize) -> (r: Result<usize, usize>)
        requires
            old(self).wf(),
        ensures
            final(self).wf(),
            r matches Ok(n) ==> free_steps(*old(self), len as nat) == len
                && *final(self) == run_out(*old(self)) && n == run_len(*old(self)),
            r matches Err(k) ==> k == free_steps(*old(self), len as nat) && k < len
                && *final(self) == stepped_n(*old(self), (k + 1) as nat),
    {
        match self.consume_len(len) {
            Ok(()) => {
                proof {
                    lemma_run_len_decompose(*old(self), len as nat);
                    lemma_stepped_n_props(*old(self), len as nat);
                    lemma_run_out_props(*old(self));
                    old(self).lemma_wf();
                    run_out(*old(self)).lemma_wf();
                    lemma_free_steps_bound(*old(self), old(self).buf().len() + 1);
                }
                let c = self.consume_and_count();
                proof {
                    assert(c + len == run_len(*old(self)));
                    assert(run_len(*old(self)) == 0 || run_len(*old(self))
                        + old(self).pit_spec().pos_spec()@ <= old(self).buf().len() - 1);
                    assert(run_len(*old(self)) <= old(self).buf().len());
                    assert(c + len <= usize::MAX);
                }
                Ok(c + len)
            },
            Err(k) => Err(k),
        }
    }

    /// Advances once and demands that the byte satisfy `f`; reports the
    /// offending byte, or `None` for exhaustion, otherwise.
    fn expect_byte_fn<F: Fn(u8) -> bool>(&mut self, f: F) -> (r: Result<(), Option<u8>>)
        requires
            old(self).wf(),
            forall|b: u8| #[trigger] call_requires(f, (b,)),
        ensures
            final(self).wf(),
            *final(self) == old(self).stepped(),
            probe(*old(self)) is None ==> r == Err::<(), Option<u8>>(None),
            probe(*old(self)) matches Some(b) ==> (
                (call_ensures(f, (b,), true) && r == Ok::<(), Option<u8>>(()))
                || (call_ensures(f, (b,), false) && r == Err::<(), Option<u8>>(Some(b)))
            ),
    {
        match self.next() {
            None => Err(None),
            Some(b) => {
                if f(b) {
                    Ok(())
                } else {
                    Err(Some(b))
                }
            },
        }
    }

    /// Advances once and demands exactly `byte`; reports the observed byte,
    /// or `None` for exhaustion, otherwise.
    fn expect_byte(&mut self, byte: u8) -> (r: Result<(), Option<u8>>)
        requires
            old(self).wf(),
        ensures
            final(self).wf(),
            *final(self) == old(self).stepped(),
            r == (match probe(*old(self)) {
                Some(b) => if b == byte {
                    Ok::<(), Option<u8>>(())
                } else {
                    Err::<(), Option<u8>>(Some(b))
                },
                None => Err::<(), Option<u8>>(None),
            }),
    {
        match self.next() {
            None => Err(None),
            Some(b) => {
                if b == byte {
                    Ok(())
                } else {
                    Err(Some(b))
                }
            },
        }
    }

    /// Demands that the cursor be exhausted; reports the unexpected byte
    /// otherwise. Either way one step is taken.
    fn expect_none(&mut self) -> (r: Result<(), u8>)
        requires
            old(self).wf(),
        ensures
            final(self).wf(),
            *final(self) == old(self).stepped(),
            r == (match probe(*old(self)) {
                Some(b) => Err::<(), u8>(b),
                None => Ok::<(), u8>(()),
            }),
    {
        match self.next() {
            Some(b) => Err(b),
            None => Ok(()),
        }
    }

    /// Advances while the function accepts each next byte, stopping just
    /// before the first byte it rejects; that byte is not consumed.
    fn consume_while_byte_fn<F: Fn(u8) -> bool>(&mut self, f: F)
        requires
            old(self).wf(),
            forall|b: u8| #[trigger] call_requires(f, (b,)),
        ensures
            final(self).wf(),
            forall|p: spec_fn(u8) -> bool| #[trigger] obeys_pred(f, p)
                ==> *final(self) == match_run(*old(self), p, old(self).buf().len() + 1),
    {
        loop
            invariant_except_break
                old(self).wf(),
                self.wf(),
                self.buf() == old(self).buf(),
                forall|p: spec_fn(u8) -> bool| #[trigger] obeys_pred(f, p)
                    ==> match_run(*old(self), p, old(self).buf().len() + 1)
                        == match_run(*self, p, self.buf().len() + 1),
                forall|b: u8| #[trigger] call_requires(f, (b,)),
            ensures
                self.wf(),
                forall|p: spec_fn(u8) -> bool| #[trigger] obeys_pred(f, p)
                    ==> *self == match_run(*old(self), p, old(self).buf().len() + 1),
            decreases self.buf().len() - self.pit_spec().pos_spec()@,
        {
            proof {
                self.lemma_wf();
                self.lemma_step();
                self.stepped().lemma_restore(self.pit_spec());
                assert forall|p: spec_fn(u8) -> bool| #[trigger] obeys_pred(f, p)
                    implies ({
                    &&& (!self.can_advance() ==> match_run(*self, p, self.buf().len() + 1)
                        == self.stepped())
                    &&& ((self.can_advance() && (probe(*self) matches Some(b) && p(b)))
                        ==> match_run(*self, p, self.buf().len() + 1)
                            == match_run(self.stepped(), p, self.buf().len() + 1))
                    &&& ((self.can_advance() && !(probe(*self) matches Some(b) && p(b)))
                        ==> match_run(*self, p, self.buf().len() + 1)
                            == self.stepped().restored(self.pit_spec()))
                }) by {
                    lemma_match_run_unfold(*self, p);
                }
            }
            let pit = self.pit();
            match self.next() {
                None => {
                    break;
                },
                Some(b) => {
                    let keep = f(b);
                    proof {
                        assert forall|p: spec_fn(u8) -> bool| #[trigger] obeys_pred(f, p)
                            implies p(b) == keep by {}
                    }
                    if !keep {
                        self.restore_pit(pit);
                        break;
                    }
                },
            }
            proof {
                self.lemma_wf();
            }
        }
    }

    /// Advances while the given byte is under the step, stopping just before
    /// the first other byte; that byte is not consumed.
    fn consume_while_byte(&mut self, byte: u8)
        requires
            old(self).wf(),
        ensures
            final(self).wf(),
            *final(self) == match_run(*old(self), eq_byte(byte), old(self).buf().len() + 1),
    {
        let f = |b: u8| -> (r: bool)
            ensures
                r == (b == byte),
            { b == byte };
        proof {
            assert forall|b: u8, r: bool| #[trigger] call_ensures(f, (b,), r)
                implies r == eq_byte(byte)(b) by {
                assert(eq_byte(byte)(b) == (b == byte));
            }
            assert(obeys_pred(f, eq_byte(byte)));
        }
        self.consume_while_byte_fn(f);
    }

    /// Counts how long the run of `byte` under the cursor is, consuming it;
    /// the first other byte is not consumed.
    fn count_byte(&mut self, byte: u8) -> (r: usize)
        requires
            old(self).wf(),
        ensures
            final(self).wf(),
            *final(self) == match_run(*old(self), eq_byte(byte), old(self).buf().len() + 1),
            r == match_steps(*old(self), eq_byte(byte), old(self).buf().len() + 1),
    {
        let mut c: usize = 0;
        loop
            invariant_except_break
                old(self).wf(),
                self.wf(),
                self.buf() == old(self).buf(),
                match_run(*old(self), eq_byte(byte), old(self).buf().len() + 1)
                    == match_run(*self, eq_byte(byte), self.buf().len() + 1),
                c + match_steps(*self, eq_byte(byte), self.buf().len() + 1)
                    == match_steps(*old(self), eq_byte(byte), old(self).buf().len() + 1),
                old(self).pit_spec().pos_spec()@ + c <= self.pit_spec().pos_spec()@,
            ensures
                self.wf(),
                *self == match_run(*old(self), eq_byte(byte), old(self).buf().len() + 1),
                c == match_steps(*old(self), eq_byte(byte), old(self).buf().len() + 1),
            decreases self.buf().len() - self.pit_spec().pos_spec()@,
        {
            let ghost pre = *self;
            proof {
                self.lemma_wf();
                old(self).lemma_wf();
                self.lemma_step();
                self.stepped().lemma_restore(self.pit_spec());
                lemma_match_run_unfold(*self, eq_byte(byte));
            }
            let pit = self.pit();
            match self.next() {
                None => {
                    proof {
                        assert(match_run(pre, eq_byte(byte), pre.buf().len() + 1) == pre.stepped());
                    }
                    break;
                },
                Some(b) => {
                    if b != byte {
                        self.restore_pit(pit);
                        proof {
                            assert(eq_byte(byte)(b) == (b == byte));
                            assert(!eq_byte(byte)(b));
                            assert(probe(pre) == Some(b));
                            assert(match_run(pre, eq_byte(byte), pre.buf().len() + 1)
                                == pre.stepped().restored(pre.pit_spec()));
                            assert(*self == pre.stepped().restored(pre.pit_spec()));
                        }
                        break;
                    }
                    proof {
                        assert(eq_byte(byte)(b) == (b == byte));
                        assert(eq_byte(byte)(b));
                        assert(match_run(pre, eq_byte(byte), pre.buf().len() + 1)
                            == match_run(pre.stepped(), eq_byte(byte), pre.buf().len() + 1));
                        assert(match_steps(pre, eq_byte(byte), pre.buf().len() + 1)
                            == match_steps(pre.stepped(), eq_byte(byte), pre.buf().len() + 1) + 1);
                    }
                },
            }
            proof {
                self.lemma_wf();
            }
            c += 1;
        }
        c
    }

    /// Returns the raw span that the next `len` steps would cover, without
    /// moving: `None` when fewer than `len` steps are possible.
    fn peek_len(&mut self, len: usize) -> (r: Option<&'s [u8]>)
        requires
            old(self).wf(),
            free_steps(*old(self), len as nat) == len
                ==> old(self).pit_spec().record_pos_spec()@
                    <= stepped_n(*old(self), len as nat).pit_spec().record_pos_spec()@,
        ensures
            final(self).wf(),
            final(self).pit_spec() == old(self).pit_spec(),
            old(self).restore_exact() ==> *final(self) == *old(self),
            r is Some <==> free_steps(*old(self), len as nat) == len,
            r matches Some(sl) ==> sl@ == old(self).buf().subrange(
                old(self).pit_spec().record_pos_spec()@ + 1,
                stepped_n(*old(self), len as nat).pit_spec().record_pos_spec()@ + 1,
            ),
    {
        let pit = self.pit();
        let start = pit.record_pos();
        proof {
            self.lemma_wf();
        }
        let r = match self.consume_len(len) {
            Ok(()) => {
                proof {
                    lemma_stepped_n_props(*old(self), len as nat);
                    self.lemma_wf();
                }
                let end = self.pit().record_pos();
                Some(vstd::slice::slice_subrange(
                    self.slice(),
                    start.next_index(),
                    end.next_index(),
                ))
            },
            Err(_) => None,
        };
        proof {
            let k = free_steps(*old(self), len as nat);
            let kk: nat = if k == len { len as nat } else { (k + 1) as nat };
            lemma_stepped_n_props(*old(self), kk);
            stepped_n(*old(self), kk).lemma_restore(pit);
            if old(self).restore_exact() {
                if k == len {
                    if len > 0 {
                        lemma_free_steps_prefix(*old(self), len as nat, (len - 1) as nat);
                    }
                } else {
                    lemma_free_steps_self(*old(self), len as nat);
                }
                lemma_stepped_n_restore(*old(self), kk, pit);
                old(self).lemma_restore_exact();
            }
        }
        self.restore_pit(pit);
        r
    }

    /// Returns the byte that the `pos`-th step from here would yield,
    /// without moving.
    fn peek_at(&mut self, pos: usize) -> (r: Option<u8>)
        requires
            old(self).wf(),
            pos > 0,
        ensures
            final(self).wf(),
            final(self).pit_spec() == old(self).pit_spec(),
            old(self).restore_exact() ==> *final(self) == *old(self),
            r == (if free_steps(*old(self), (pos - 1) as nat) == pos - 1 {
                probe(stepped_n(*old(self), (pos - 1) as nat))
            } else {
                Option::<u8>::None
            }),
    {
        let pit = self.pit();
        proof {
            self.lemma_wf();
        }
        let r = match self.consume_len(pos - 1) {
            Ok(()) => {
                proof {
                    lemma_stepped_n_props(*old(self), (pos - 1) as nat);
                }
                self.next()
            },
            Err(_) => None,
        };
        proof {
            let k = free_steps(*old(self), (pos - 1) as nat);
            let kk: nat = if k == pos - 1 { pos as nat } else { (k + 1) as nat };
            lemma_stepped_n_snoc(*old(self), (pos - 1) as nat);
            lemma_stepped_n_props(*old(self), kk);
            stepped_n(*old(self), kk).lemma_restore(pit);
            if old(self).restore_exact() {
                if k < pos - 1 {
                    lemma_free_steps_self(*old(self), (pos - 1) as nat);
                }
                lemma_stepped_n_restore(*old(self), kk, pit);
                old(self).lemma_restore_exact();
            }
        }
        self.restore_pit(pit);
        r
    }

    /// Returns the recorded span as a slice of the original buffer.
    ///
    /// May only be called while a recorder is active and the span has not
    /// been rewound past its own anchor: materializing without a recorder is
    /// a usage bug, not a data condition.
    fn to_slice(&self) -> (r: &'s [u8])
        requires
            self.wf(),
            self.rec_anchor() is Some,
            self.rec_anchor().unwrap() <= self.pit_spec().record_pos_spec()@,
        ensures
            r@ == span_of(*self),
    {
        proof {
            self.lemma_wf();
        }
        let rc = match self.recorder() {
            Some(rc) => *rc,
            None => vstd::pervasive::unreached(),
        };
        let start = rc.pos().next_index();
        let end = self.pit().record_pos().next_index();
        vstd::slice::slice_subrange(self.slice(), start, end)
    }

    /// Returns the recorded span as text when it is valid UTF-8, and
    /// `None` when it is not: invalid encoding is a recoverable, inspectable
    /// outcome, never a panic.
    fn try_to_str(&self) -> (r: Option<&'s str>)
        requires
            self.wf(),
            self.rec_anchor() is Some,
            self.rec_anchor().unwrap() <= self.pit_spec().record_pos_spec()@,
        ensures
            r is Some <==> vstd::utf8::valid_utf8(span_of(*self)),
            r matches Some(t) ==> t.spec_bytes() == span_of(*self),
    {
        try_from_utf8(self.to_slice())
    }

    /// Returns the recorded span as text; the span must be valid UTF-8.
    fn to_str(&self) -> (r: &'s str)
        requires
            self.wf(),
            self.rec_anchor() is Some,
            self.rec_anchor().unwrap() <= self.pit_spec().record_pos_spec()@,
            vstd::utf8::valid_utf8(span_of(*self)),
        ensures
            r.spec_bytes() == span_of(*self),
    {
        match self.try_to_str() {
            Some(t) => t,
            None => vstd::pervasive::unreached(),
        }
    }

    /// Returns the recorded span as text on the strength of the leaf's
    /// encoding guarantee: the caller must hold a cursor whose buffer is
    /// known to be valid UTF-8, and a span that does not cut a character.
    fn to_str_unchecked(&self) -> (r: &'s str)
        requires
            self.wf(),
            self.enc_valid(),
            self.rec_anchor() is Some,
            self.rec_anchor().unwrap() <= self.pit_spec().record_pos_spec()@,
            vstd::utf8::valid_utf8(span_of(*self)),
        ensures
            r.spec_bytes() == span_of(*self),
    {
        self.to_str()
    }

    /// Advances to exhaustion, then returns the recorded span as a slice.
    fn consume_to_slice(&mut self) -> (r: &'s [u8])
        requires
            old(self).wf(),
            old(self).rec_anchor() is Some,
            old(self).rec_anchor().unwrap()
                <= run_out(*old(self)).pit_spec().record_pos_spec()@,
        ensures
            *final(self) == run_out(*old(self)),
            final(self).wf(),
            r@ == span_of(run_out(*old(self))),
    {
        proof {
            lemma_run_out_props(*old(self));
        }
        self.consume();
        self.to_slice()
    }

    /// Advances to exhaustion, then returns the recorded span as text when
    /// it is valid UTF-8.
    fn consume_try_to_str(&mut self) -> (r: Option<&'s str>)
        requires
            old(self).wf(),
            old(self).rec_anchor() is Some,
            old(self).rec_anchor().unwrap()
                <= run_out(*old(self)).pit_spec().record_pos_spec()@,
        ensures
            *final(self) == run_out(*old(self)),
            final(self).wf(),
            r is Some <==> vstd::utf8::valid_utf8(span_of(run_out(*old(self)))),
            r matches Some(t) ==> t.spec_bytes() == span_of(run_out(*old(self))),
    {
        proof {
            lemma_run_out_props(*old(self));
        }
        self.consume();
        self.try_to_str()
    }

    /// Advances to exhaustion, then returns the recorded span as text;
    /// the span must be valid UTF-8.
    fn consume_to_str(&mut self) -> (r: &'s str)
        requires
            old(self).wf(),
            old(self).rec_anchor() is Some,
            old(self).rec_anchor().unwrap()
                <= run_out(*old(self)).pit_spec().record_pos_spec()@,
            vstd::utf8::valid_utf8(span_of(run_out(*old(self)))),
        ensures
            *final(self) == run_out(*old(self)),
            final(self).wf(),
            r.spec_bytes() == span_of(run_out(*old(self))),
    {
        proof {
            lemma_run_out_props(*old(self));
        }
        self.consume();
        self.to_str()
    }

    /// Advances to exhaustion, then returns the recorded span as text on the
    /// strength of the leaf's encoding guarantee.
    fn consume_to_str_unchecked(&mut self) -> (r: &'s str)
        requires
            old(self).wf(),
            old(self).enc_valid(),
            old(self).rec_anchor() is Some,
            old(self).rec_anchor().unwrap()
                <= run_out(*old(self)).pit_spec().record_pos_spec()@,
            vstd::utf8::valid_utf8(span_of(run_out(*old(self)))),
        ensures
            *final(self) == run_out(*old(self)),
            final(self).wf(),
            r.spec_bytes() == span_of(run_out(*old(self))),
    {
        proof {
            lemma_run_out_props(*old(self));
        }
        self.consume();
        self.to_str_unchecked()
    }
}

impl<'s, T: ParseIterator<'s>> ParseIteratorExt<'s> for T {

}

} // verus!
