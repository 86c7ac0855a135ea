//! Composable, zero-copy cursors over an immutable byte buffer.
//!
//! A chain of wrappers is built over a leaf cursor and driven through
//! `advance` and the operations derived from it; recorded spans resolve to
//! exact ranges of the original buffer and are only copied when the caller
//! materializes them.

use vstd::prelude::*;

pub mod position;
pub mod pit;
pub mod recorder;
pub mod parse_iterator;
pub mod stop;
pub mod ignore_byte;
pub mod while_byte_fn;
pub mod split_on_byte;
pub mod expect_byte;
pub mod parse_iter;

pub use expect_byte::ExpectByte;
pub use parse_iter::{parse_iter, ParseIter};
pub use parse_iterator::ParseIterator;
pub use parse_iterator::ParseIteratorExt;
pub use parse_iterator::{cur_byte, peeked, probe, run_len, run_out, span_of, valid_coord};

use vstd::string::StringSliceAdditionalSpecFns;

use crate::pit::{ParserPointInTime, PointInTime};
use crate::position::Position;
use crate::recorder::Recorder;

verus! {

/// A leaf cursor over a byte slice, with no text-encoding guarantee.
#[derive(Debug)]
pub struct Parser<'s> {
    pub slice: &'s [u8],
    pub pit: ParserPointInTime,
}

impl<'s> Parser<'s> {
    /// Creates a new `Parser` over a slice, positioned before the first byte.
    pub fn new(slice: &'s [u8]) -> (r: Self)
        ensures
            r.wf(),
            r.buf() == slice@,
            r.pit_spec().pos_spec()@ == -1,
            !r.enc_valid(),
            r.restore_exact(),
            r.rec_anchor() is None,
    {
        proof {
            vstd::slice::axiom_spec_len(slice);
        }
        Parser { slice, pit: ParserPointInTime { pos: Position::null() } }
    }
}

impl<'s> ParseIterator<'s> for Parser<'s> {
    type PointInTime = ParserPointInTime;

    open spec fn buf(&self) -> Seq<u8> {
        self.slice@
    }

    open spec fn wf(&self) -> bool {
        valid_coord(self.slice@, self.pit.pos@) && self.slice@.len() <= usize::MAX
    }

    open spec fn enc_valid(&self) -> bool {
        false
    }

    open spec fn rec_anchor(&self) -> Option<int> {
        None
    }

    open spec fn can_advance(&self) -> bool {
        self.pit.pos@ + 1 < self.slice@.len()
    }

    open spec fn stepped(&self) -> Self {
        if self.can_advance() {
            Parser {
                slice: self.slice,
                pit: ParserPointInTime { pos: Position::from_int(self.pit.pos@ + 1) },
            }
        } else {
            *self
        }
    }

    open spec fn pit_spec(&self) -> ParserPointInTime {
        self.pit
    }

    open spec fn pit_valid(&self, pit: ParserPointInTime) -> bool {
        valid_coord(self.slice@, pit.pos@)
    }

    open spec fn restored(&self, pit: ParserPointInTime) -> Self {
        Parser { slice: self.slice, pit }
    }

    open spec fn restore_exact(&self) -> bool {
        true
    }

    fn slice(&self) -> (r: &'s [u8]) {
        self.slice
    }

    fn pit(&self) -> (r: ParserPointInTime) {
        self.pit
    }

    fn restore_pit(&mut self, pit: ParserPointInTime) {
        self.pit = pit;
    }

    fn advance(&mut self) -> (r: Option<()>) {
        let n = self.pit.pos.next_index();
        if n < self.slice.len() {
            self.pit.pos = Position::at(n);
            proof {
                crate::position::lemma_from_int_view(self.pit.pos@);
            }
            Some(())
        } else {
            None
        }
    }

    fn recorder(&self) -> (r: Option<&Recorder>) {
        None
    }

    fn is_valid_utf8(&self) -> (r: bool) {
        false
    }

    proof fn lemma_wf(&self) {
    }

    proof fn lemma_step(&self) {
        if self.can_advance() {
            crate::position::lemma_from_int_view(self.pit.pos@ + 1);
        }
    }

    proof fn lemma_restore(&self, p: ParserPointInTime) {
    }

    proof fn lemma_pit_valid_with_pos(&self, p: ParserPointInTime, x: Position) {
    }

    proof fn lemma_restore_exact(&self) {
        crate::position::lemma_from_int_roundtrip(self.pit.pos);
    }

    proof fn lemma_restore_algebra(&self, p: ParserPointInTime, q: ParserPointInTime) {
    }
}

/// A leaf cursor over a `str`, whose buffer is therefore known to be valid
/// UTF-8; the guarantee is inherited unchanged by every wrapper put over it.
#[derive(Debug)]
pub struct StrParser<'s> {
    pub inner: &'s str,
    pub pit: ParserPointInTime,
}

impl<'s> StrParser<'s> {
    /// Creates a new `StrParser` over a str, positioned before the first byte.
    pub fn new(inner: &'s str) -> (r: Self)
        ensures
            r.wf(),
            r.buf() == inner.spec_bytes(),
            r.pit_spec().pos_spec()@ == -1,
            r.enc_valid(),
            r.restore_exact(),
            r.rec_anchor() is None,
    {
        let bytes = inner.as_bytes();
        proof {
            vstd::slice::axiom_spec_len(bytes);
        }
        StrParser { inner, pit: ParserPointInTime { pos: Position::null() } }
    }
}

impl<'s> ParseIterator<'s> for StrParser<'s> {
    type PointInTime = ParserPointInTime;

    open spec fn buf(&self) -> Seq<u8> {
        self.inner.spec_bytes()
    }

    open spec fn wf(&self) -> bool {
        valid_coord(self.inner.spec_bytes(), self.pit.pos@)
            && self.inner.spec_bytes().len() <= usize::MAX
    }

    open spec fn enc_valid(&self) -> bool {
        true
    }

    open spec fn rec_anchor(&self) -> Option<int> {
        None
    }

    open spec fn can_advance(&self) -> bool {
        self.pit.pos@ + 1 < self.inner.spec_bytes().len()
    }

    open spec fn stepped(&self) -> Self {
        if self.can_advance() {
            StrParser {
                inner: self.inner,
                pit: ParserPointInTime { pos: Position::from_int(self.pit.pos@ + 1) },
            }
        } else {
            *self
        }
    }

    open spec fn pit_spec(&self) -> ParserPointInTime {
        self.pit
    }

    open spec fn pit_valid(&self, pit: ParserPointInTime) -> bool {
        valid_coord(self.inner.spec_bytes(), pit.pos@)
    }

    open spec fn restored(&self, pit: ParserPointInTime) -> Self {
        StrParser { inner: self.inner, pit }
    }

    open spec fn restore_exact(&self) -> bool {
        true
    }

    fn slice(&self) -> (r: &'s [u8]) {
        self.inner.as_bytes()
    }

    fn pit(&self) -> (r: ParserPointInTime) {
        self.pit
    }

    fn restore_pit(&mut self, pit: ParserPointInTime) {
        self.pit = pit;
    }

    fn advance(&mut self) -> (r: Option<()>) {
        let n = self.pit.pos.next_index();
        if n < self.inner.len() {
            self.pit.pos = Position::at(n);
            proof {
                crate::position::lemma_from_int_view(self.pit.pos@);
            }
            Some(())
        } else {
            None
        }
    }

    fn recorder(&self) -> (r: Option<&Recorder>) {
        None
    }

    fn is_valid_utf8(&self) -> (r: bool) {
        true
    }

    proof fn lemma_wf(&self) {
        broadcast use vstd::utf8::encode_utf8_valid_utf8;

    }

    proof fn lemma_step(&self) {
        if self.can_advance() {
            crate::position::lemma_from_int_view(self.pit.pos@ + 1);
        }
    }

    proof fn lemma_restore(&self, p: ParserPointInTime) {
    }

    proof fn lemma_pit_valid_with_pos(&self, p: ParserPointInTime, x: Position) {
    }

    proof fn lemma_restore_exact(&self) {
        crate::position::lemma_from_int_roundtrip(self.pit.pos);
    }

    proof fn lemma_restore_algebra(&self, p: ParserPointInTime, q: ParserPointInTime) {
    }
}

} // verus!
