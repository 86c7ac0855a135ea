use vstd::prelude::*;
use crate::parse_iterator::ParseIterator;

verus! {

/// A pull adapter over a cursor: each call of [`Self::next`] hands the
/// cursor to the stored function and yields what it produced, until the
/// function reports `None`. The adapter holds no state of its own.
pub struct ParseIter<I, F> {
    pub i: I,
    pub f: F,
}

impl<I, F> ParseIter<I, F> {
    /// Builds the adapter from a cursor and a function that parses one item.
    pub fn new(i: I, f: F) -> (r: Self)
        ensures
            r.i == i,
            r.f == f,
    {
        ParseIter { i, f }
    }

    /// Hands the cursor back.
    pub fn into_inner(self) -> (r: I)
        ensures
            r == self.i,
    {
        self.i
    }
}

impl<'s, I: ParseIterator<'s>, F> ParseIter<I, F> {
    /// Parses one more item, or reports that the input is over.
    ///
    /// The stored function must take any well-formed cursor and leave a
    /// well-formed one behind.
    pub fn next<O>(&mut self) -> (r: Option<O>) where F: Fn(&mut I) -> Option<O>
        requires
            old(self).i.wf(),
            forall|it: &mut I| it.wf() ==> #[trigger] call_requires(old(self).f, (it,)),
            forall|it: &mut I, o: Option<O>|
                #[trigger] call_ensures(old(self).f, (it,), o) ==> final(it).wf(),
        ensures
            final(self).i.wf(),
            final(self).f == old(self).f,
            exists|it: &mut I|
                *it == old(self).i && *final(it) == final(self).i
                    && #[trigger] call_ensures(old(self).f, (it,), r),
    {
        (self.f)(&mut self.i)
    }
}

/// Builds a pull adapter over `i`: each pull invokes `f` once.
pub fn parse_iter<'s, I, F, O>(i: I, f: F) -> (r: ParseIter<I, F>)
    where
        I: ParseIterator<'s>,
        F: Fn(&mut I) -> Option<O>,
    ensures
        r.i == i,
        r.f == f,
{
    ParseIter::new(i, f)
}

} // verus!
